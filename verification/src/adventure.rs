//! The adventure graph data model: a sparse mapping from grid positions to
//! map elements (connective roads and named content nodes).

use vstd::prelude::*;

use crate::pos::Pos;

verus! {

/// What a content node points at: either a nested adventure graph to recurse
/// into, or a level resource to open directly.
#[derive(Clone, Debug, PartialEq, Eq)]
pub enum NodeDetails {
    Adventure(String),
    Level(String),
}

/// A named content anchor in the graph. The name is the display and lookup
/// key; the details say what opening the node does.
#[derive(Clone, Debug, PartialEq, Eq)]
pub struct AdventureNode {
    pub name: String,
    pub details: NodeDetails,
}

/// A tile of the adventure graph: a bare connective road, or a content node.
#[derive(Clone, Debug, PartialEq, Eq)]
pub enum MapElement {
    Road,
    Node(AdventureNode),
}

/// A connection between two node identifiers. This record is a documented
/// extension point: nothing in the current core produces or consumes it.
#[derive(Clone, Copy, Debug, PartialEq, Eq, Structural)]
pub struct Road {
    pub start_id: u16,
    pub end_id: u16,
}

/// Mathematical model of `NodeDetails`, over character sequences.
pub ghost enum DetailsModel {
    Adventure(Seq<char>),
    Level(Seq<char>),
}

/// Mathematical model of a `MapElement`.
pub ghost enum ElemModel {
    Road,
    Node { name: Seq<char>, details: DetailsModel },
}

impl View for NodeDetails {
    type V = DetailsModel;

    open spec fn view(&self) -> DetailsModel {
        match self {
            NodeDetails::Adventure(s) => DetailsModel::Adventure(s@),
            NodeDetails::Level(s) => DetailsModel::Level(s@),
        }
    }
}

impl View for MapElement {
    type V = ElemModel;

    open spec fn view(&self) -> ElemModel {
        match self {
            MapElement::Road => ElemModel::Road,
            MapElement::Node(n) => ElemModel::Node { name: n.name@, details: n.details@ },
        }
    }
}

/// The views of a sequence of concrete entries.
pub open spec fn pair_views(es: Seq<(Pos, MapElement)>) -> Seq<(Pos, ElemModel)> {
    es.map_values(|pe: (Pos, MapElement)| (pe.0, pe.1@))
}

/// The mapping that a sequence of entries denotes: later entries overwrite
/// earlier ones at the same position.
pub open spec fn entries_map(es: Seq<(Pos, ElemModel)>) -> Map<Pos, ElemModel>
    decreases es.len(),
{
    if es.len() == 0 {
        Map::empty()
    } else {
        entries_map(es.drop_last()).insert(es.last().0, es.last().1)
    }
}

/// No two entries share a position.
pub open spec fn keys_distinct(es: Seq<(Pos, ElemModel)>) -> bool {
    forall|i: int, j: int| 0 <= i < j < es.len() ==> (#[trigger] es[i]).0 != (#[trigger] es[j]).0
}

/// The domain of `entries_map` is finite and holds exactly the positions that
/// occur in the entry sequence.
pub proof fn lemma_entries_map_dom(es: Seq<(Pos, ElemModel)>)
    ensures
        entries_map(es).dom().finite(),
        forall|p: Pos|
            entries_map(es).dom().contains(p) <==> exists|i: int|
                0 <= i < es.len() && (#[trigger] es[i]).0 == p,
    decreases es.len(),
{
    if es.len() == 0 {
    } else {
        lemma_entries_map_dom(es.drop_last());
        assert forall|p: Pos| entries_map(es).dom().contains(p) implies exists|i: int|
            0 <= i < es.len() && (#[trigger] es[i]).0 == p by {
            if p == es.last().0 {
                assert(es[es.len() - 1].0 == p);
            } else {
                let i = choose|i: int| 0 <= i < es.drop_last().len() && (#[trigger] es.drop_last()[i]).0 == p;
                assert(es[i].0 == p);
            }
        }
        assert forall|p: Pos|
            (exists|i: int| 0 <= i < es.len() && (#[trigger] es[i]).0 == p) implies entries_map(
            es,
        ).dom().contains(p) by {
            let i = choose|i: int| 0 <= i < es.len() && (#[trigger] es[i]).0 == p;
            if i < es.len() - 1 {
                assert(es.drop_last()[i].0 == p);
            }
        }
    }
}

/// Under distinct keys, each entry's value is the mapping's value at its key,
/// and the mapping has exactly as many keys as there are entries.
pub proof fn lemma_entries_map_index(es: Seq<(Pos, ElemModel)>)
    requires
        keys_distinct(es),
    ensures
        entries_map(es).dom().len() == es.len(),
        forall|i: int|
            0 <= i < es.len() ==> entries_map(es)[(#[trigger] es[i]).0] == es[i].1,
    decreases es.len(),
{
    lemma_entries_map_dom(es);
    if es.len() == 0 {
        assert(entries_map(es).dom() =~= Set::<Pos>::empty());
    } else {
        let prefix = es.drop_last();
        assert(keys_distinct(prefix)) by {
            assert forall|i: int, j: int| 0 <= i < j < prefix.len() implies (#[trigger] prefix[i]).0
                != (#[trigger] prefix[j]).0 by {
                assert(es[i].0 != es[j].0);
            }
        }
        lemma_entries_map_index(prefix);
        lemma_entries_map_dom(prefix);
        assert(!entries_map(prefix).dom().contains(es.last().0)) by {
            if entries_map(prefix).dom().contains(es.last().0) {
                let i = choose|i: int|
                    0 <= i < prefix.len() && (#[trigger] prefix[i]).0 == es.last().0;
                assert(es[i].0 == es[es.len() - 1].0);
            }
        }
        assert(entries_map(es).dom() =~= entries_map(prefix).dom().insert(es.last().0));
        assert forall|i: int| 0 <= i < es.len() implies entries_map(es)[(#[trigger] es[i]).0]
            == es[i].1 by {
            if i < es.len() - 1 {
                assert(prefix[i].0 == es[i].0 && prefix[i].1 == es[i].1);
                assert(es[i].0 != es.last().0);
            }
        }
    }
}

/// Overwriting the entry that holds a position is, at the mapping level, an
/// insert at that position, provided no later entry holds the same position.
pub proof fn lemma_entries_map_update(es: Seq<(Pos, ElemModel)>, k: int, v: ElemModel)
    requires
        0 <= k < es.len(),
        forall|j: int| k < j < es.len() ==> (#[trigger] es[j]).0 != es[k].0,
    ensures
        entries_map(es.update(k, (es[k].0, v))) =~= entries_map(es).insert(es[k].0, v),
    decreases es.len(),
{
    let p = es[k].0;
    let es2 = es.update(k, (p, v));
    if k == es.len() - 1 {
        assert(es2.drop_last() =~= es.drop_last());
        assert(entries_map(es2) =~= entries_map(es).insert(p, v));
    } else {
        lemma_entries_map_update(es.drop_last(), k, v);
        assert(es2.drop_last() =~= es.drop_last().update(k, (p, v)));
        assert(es2.last() == es.last());
        assert(es.last().0 != p);
        assert(entries_map(es2) =~= entries_map(es).insert(p, v));
    }
}

/// The adventure graph: a mapping from `Pos` to `MapElement`, stored as a
/// sequence of entries with pairwise distinct positions.
#[derive(Clone, Debug, PartialEq, Eq)]
pub struct Adventure {
    entries: Vec<(Pos, MapElement)>,
}

impl View for Adventure {
    type V = Map<Pos, ElemModel>;

    open spec fn view(&self) -> Map<Pos, ElemModel> {
        entries_map(self.entry_seq())
    }
}

impl Adventure {
    /// The entries in storage order. The order carries no meaning for the
    /// mapping; it is exposed so that iteration can be specified exactly.
    pub closed spec fn entry_seq(&self) -> Seq<(Pos, ElemModel)> {
        pair_views(self.entries@)
    }

    /// Well-formedness: no position occurs twice.
    pub open spec fn wf(&self) -> bool {
        keys_distinct(self.entry_seq())
    }

    /// An empty graph.
    pub fn new() -> (a: Adventure)
        ensures
            a.wf(),
            a@ =~= Map::<Pos, ElemModel>::empty(),
            a.entry_seq() =~= Seq::<(Pos, ElemModel)>::empty(),
    {
        Adventure { entries: Vec::new() }
    }

    /// How many positions hold an element.
    pub fn len(&self) -> (n: usize)
        requires
            self.wf(),
        ensures
            n == self.entry_seq().len(),
            n == self@.dom().len(),
    {
        proof {
            lemma_entries_map_index(self.entry_seq());
        }
        self.entries.len()
    }

    pub fn is_empty(&self) -> (b: bool)
        requires
            self.wf(),
        ensures
            b <==> self@ =~= Map::<Pos, ElemModel>::empty(),
    {
        proof {
            lemma_entries_map_index(self.entry_seq());
            lemma_entries_map_dom(self.entry_seq());
            if self.entry_seq().len() == 0 {
                assert(self@.dom() =~= Set::<Pos>::empty());
            } else {
                assert(self@.dom().contains(self.entry_seq()[0].0));
            }
        }
        self.entries.len() == 0
    }

    /// Point lookup by position.
    #[verifier::loop_isolation(false)]
    pub fn get(&self, p: &Pos) -> (r: Option<&MapElement>)
        requires
            self.wf(),
        ensures
            match r {
                Some(e) => self@.dom().contains(*p) && e@ == self@[*p],
                None => !self@.dom().contains(*p),
            },
    {
        proof {
            lemma_entries_map_dom(self.entry_seq());
            lemma_entries_map_index(self.entry_seq());
        }
        let n = self.entries.len();
        let mut i: usize = 0;
        while i < n
            invariant
                n == self.entries.len(),
                i <= n,
                self.wf(),
                forall|j: int| 0 <= j < i ==> (#[trigger] self.entry_seq()[j]).0 != *p,
            decreases n - i,
        {
            if self.entries[i].0.x == p.x && self.entries[i].0.y == p.y {
                assert(self.entry_seq()[i as int].0 == *p);
                return Some(&self.entries[i].1);
            }
            i += 1;
        }
        proof {
            if self@.dom().contains(*p) {
                let j = choose|j: int|
                    0 <= j < self.entry_seq().len() && (#[trigger] self.entry_seq()[j]).0 == *p;
                assert(self.entry_seq()[j].0 != *p);
            }
        }
        None
    }

    /// Insert an element at a position, overwriting any element already
    /// there. When the position is fresh, the new entry is appended, so the
    /// entry order of the existing entries is kept.
    #[verifier::loop_isolation(false)]
    pub fn insert(&mut self, p: Pos, e: MapElement)
        requires
            old(self).wf(),
        ensures
            final(self).wf(),
            final(self)@ =~= old(self)@.insert(p, e@),
            !old(self)@.dom().contains(p) ==> final(self).entry_seq() == old(
                self,
            ).entry_seq().push((p, e@)),
    {
        proof {
            lemma_entries_map_dom(self.entry_seq());
        }
        let n = self.entries.len();
        let mut i: usize = 0;
        while i < n
            invariant
                n == self.entries.len(),
                i <= n,
                old(self) == self,
                forall|j: int| 0 <= j < i ==> (#[trigger] self.entry_seq()[j]).0 != p,
            decreases n - i,
        {
            if self.entries[i].0.x == p.x && self.entries[i].0.y == p.y {
                proof {
                    assert(self.entry_seq()[i as int].0 == p);
                    assert forall|j: int| i < j < self.entry_seq().len() implies (
                    #[trigger] self.entry_seq()[j]).0 != self.entry_seq()[i as int].0 by {}
                    lemma_entries_map_update(self.entry_seq(), i as int, e@);
                }
                self.entries[i] = (p, e);
                proof {
                    assert(self.entry_seq() =~= old(self).entry_seq().update(
                        i as int,
                        (p, e@),
                    ));
                    assert(self.wf()) by {
                        assert forall|a: int, b: int|
                            0 <= a < b < self.entry_seq().len() implies (
                        #[trigger] self.entry_seq()[a]).0 != (#[trigger] self.entry_seq()[b]).0 by {
                            assert(old(self).entry_seq()[a].0 != old(self).entry_seq()[b].0);
                        }
                    }
                }
                return ;
            }
            i += 1;
        }
        proof {
            if old(self)@.dom().contains(p) {
                let j = choose|j: int|
                    0 <= j < self.entry_seq().len() && (#[trigger] self.entry_seq()[j]).0 == p;
                assert(self.entry_seq()[j].0 != p);
            }
        }
        self.entries.push((p, e));
        proof {
            assert(self.entry_seq() =~= old(self).entry_seq().push((p, e@)));
            assert(self.entry_seq().drop_last() =~= old(self).entry_seq());
            assert(self.wf()) by {
                assert forall|a: int, b: int|
                    0 <= a < b < self.entry_seq().len() implies (#[trigger] self.entry_seq()[a]).0
                    != (#[trigger] self.entry_seq()[b]).0 by {
                    if b < self.entry_seq().len() - 1 {
                        assert(old(self).entry_seq()[a].0 != old(self).entry_seq()[b].0);
                    } else {
                        assert(old(self).entry_seq()[a].0 != p);
                    }
                }
            }
        }
    }

    /// All entries, for iteration. The order is unspecified to callers of the
    /// mapping; it is the storage order that `entry_seq` names.
    pub fn entries(&self) -> (r: &Vec<(Pos, MapElement)>)
        ensures
            pair_views(r@) == self.entry_seq(),
    {
        &self.entries
    }
}

impl Default for Adventure {
    /// The default graph is empty.
    fn default() -> (a: Adventure)
        ensures
            a.wf(),
            a@ =~= Map::<Pos, ElemModel>::empty(),
            a.entry_seq() =~= Seq::<(Pos, ElemModel)>::empty(),
    {
        Adventure::new()
    }
}

} // verus!
