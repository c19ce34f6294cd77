//! The lineage of the registered agents, as a forest: those without a parent
//! are its roots.

use crate::dqn_tracker::registry::{
    distinct_ids, entry_views, AgentLifecycle, EntryView, RegistryEntry,
};
use crate::order::{
    in_order, lemma_in_order, lemma_where_true, lemma_where_true_step, positions, sort_positions,
    where_true,
};
use crate::text::{decimal, number};
use crate::tree_widget::{
    all_numbered_rows, deepen, grown, hangs_from, lemma_grown, lemma_grown_hangs,
    lemma_numbered_push, numbered_ids, numbered_item, Row, Tint,
};
use tui_tree_widget::TreeItem;
use vstd::prelude::*;
use vstd::string::*;

verus! {

/// The live metrics of an agent, written out as numbers.
#[derive(Debug)]
pub struct MetricText {
    /// The entropy average, to three places.
    pub entropy: String,
    /// The score average, to one place.
    pub score: String,
}

/// What a [`MetricText`] says: entropy, then score.
pub open spec fn metric_views(texts: Seq<MetricText>) -> Seq<(Seq<char>, Seq<char>)> {
    texts.map_values(|t: MetricText| (t.entropy@, t.score@))
}

/// The mark of a lifecycle state.
pub open spec fn status_mark(lifecycle: AgentLifecycle) -> Seq<char> {
    match lifecycle {
        AgentLifecycle::Alive => "●"@,
        AgentLifecycle::Discarded => "✕"@,
    }
}

/// The color of a lifecycle state.
pub open spec fn status_tint(lifecycle: AgentLifecycle) -> Tint {
    match lifecycle {
        AgentLifecycle::Alive => Tint::Green,
        AgentLifecycle::Discarded => Tint::DarkGray,
    }
}

/// The line that describes an agent.
pub open spec fn entry_label(e: EntryView, metrics: (Seq<char>, Seq<char>)) -> Seq<char> {
    status_mark(e.lifecycle) + " "@ + e.label + " [H:"@ + metrics.0 + " S:"@ + metrics.1 + " ep:"@
        + decimal(e.episodes as nat) + "]"@
}

pub open spec fn ids_of(list: Seq<EntryView>) -> Seq<u64> {
    list.map_values(|e: EntryView| e.agent_id)
}

/// Where in the list the children of an agent stand, by ascending ID; the
/// roots, where no agent is given.
pub open spec fn children_of(list: Seq<EntryView>, parent: Option<u64>) -> Seq<int> {
    in_order(ids_of(list), where_true(list.len(), |i: int| list[i].parent_id == parent))
}

pub open spec fn lineage_row(
    list: Seq<EntryView>,
    texts: Seq<(Seq<char>, Seq<char>)>,
    i: int,
) -> Row<u64> {
    Row {
        depth: 0,
        id: list[i].agent_id,
        text: seq![entry_label(list[i], texts[i])],
        tint: Some(status_tint(list[i].lifecycle)),
    }
}

/// The agents at `nodes`, each above its descendants, down to `levels` levels.
pub open spec fn forest(
    list: Seq<EntryView>,
    texts: Seq<(Seq<char>, Seq<char>)>,
    nodes: Seq<int>,
    levels: nat,
) -> Seq<Row<u64>>
    decreases levels, nodes.len(),
{
    if levels == 0 || nodes.len() == 0 {
        Seq::empty()
    } else {
        let i = nodes.last();
        forest(list, texts, nodes.drop_last(), levels) + (seq![lineage_row(list, texts, i)]
            + deepen(
            forest(
                list,
                texts,
                children_of(list, Some(list[i].agent_id)),
                (levels - 1) as nat,
            ),
        ))
    }
}

/// The whole lineage.  No agent lies deeper than there are agents.
pub open spec fn lineage(list: Seq<EntryView>, texts: Seq<(Seq<char>, Seq<char>)>) -> Seq<
    Row<u64>,
> {
    forest(list, texts, children_of(list, None), list.len())
}

/// The IDs of the roots, ascending.
pub open spec fn top_ids(list: Seq<EntryView>) -> Seq<u64> {
    children_of(list, None).map_values(|i: int| list[i].agent_id)
}

/// `path` leads from a root down to a child of no one yet named: each agent on
/// it is the parent of the next.
pub open spec fn descends(list: Seq<EntryView>, path: Seq<int>) -> bool {
    &&& forall|k: int| 0 <= k < path.len() ==> 0 <= #[trigger] path[k] < list.len()
    &&& forall|k: int|
        0 <= k < path.len() ==> list[#[trigger] path[k]].parent_id == parent_at(list, path, k)
}

/// The agent above place `k` of a path.
pub open spec fn parent_at(list: Seq<EntryView>, path: Seq<int>, k: int) -> Option<u64> {
    if k == 0 {
        None
    } else {
        Some(list[path[k - 1]].agent_id)
    }
}

proof fn lemma_path_distinct(list: Seq<EntryView>, path: Seq<int>, i: int, j: int)
    requires
        distinct_ids(list),
        descends(list, path),
        0 <= i < j < path.len(),
    ensures
        path[i] != path[j],
    decreases i,
{
    if path[i] == path[j] {
        assert(list[path[i]].parent_id == parent_at(list, path, i));
        assert(list[path[j]].parent_id == parent_at(list, path, j));
        if i > 0 {
            lemma_path_distinct(list, path, i - 1, j - 1);
            let a = path[i - 1];
            let b = path[j - 1];
            assert(list[a].agent_id == list[b].agent_id);
            assert(a != b);
            if a < b {
                assert(list[a].agent_id != list[b].agent_id);
            } else {
                assert(list[b].agent_id != list[a].agent_id);
            }
        }
    }
}

/// A path passes no agent twice, so it is no longer than the list.
proof fn lemma_path_length(list: Seq<EntryView>, path: Seq<int>)
    requires
        distinct_ids(list),
        descends(list, path),
    ensures
        path.no_duplicates(),
        path.len() <= list.len(),
{
    assert forall|i: int, j: int|
        0 <= i < path.len() && 0 <= j < path.len() && i != j implies path[i] != path[j] by {
        if i < j {
            lemma_path_distinct(list, path, i, j);
        } else {
            lemma_path_distinct(list, path, j, i);
        }
    }
    path.unique_seq_to_set();
    let all = vstd::set_lib::set_int_range(0, list.len() as int);
    vstd::set_lib::lemma_int_range(0, list.len() as int);
    assert(path.to_set().subset_of(all)) by {
        assert forall|x: int| path.to_set().contains(x) implies all.contains(x) by {
            let k = path.index_of(x);
            assert(0 <= path[k] < list.len());
        }
    }
    vstd::set_lib::lemma_len_subset(path.to_set(), all);
}

proof fn lemma_path_push(list: Seq<EntryView>, path: Seq<int>, parent: Option<u64>, i: int)
    requires
        descends(list, path),
        parent == parent_at(list, path, path.len() as int),
        0 <= i < list.len(),
        list[i].parent_id == parent,
    ensures
        descends(list, path.push(i)),
        parent_at(list, path.push(i), path.len() as int + 1) == Some(list[i].agent_id),
{
    let next = path.push(i);
    assert forall|k: int| 0 <= k < next.len() implies list[#[trigger] next[k]].parent_id
        == parent_at(list, next, k) && 0 <= next[k] < list.len() by {
        if k < path.len() {
            assert(next[k] == path[k]);
            assert(list[path[k]].parent_id == parent_at(list, path, k));
            if k > 0 {
                assert(next[k - 1] == path[k - 1]);
            }
        } else if k > 0 {
            assert(next[k - 1] == path[k - 1]);
        }
    }
}

/// What [`children_of`] holds.
pub proof fn lemma_children(list: Seq<EntryView>, parent: Option<u64>)
    ensures
        forall|i: int| #[trigger]
            children_of(list, parent).contains(i) <==> 0 <= i < list.len() && list[i].parent_id
                == parent,
        children_of(list, parent).no_duplicates(),
{
    let keep = |i: int| list[i].parent_id == parent;
    lemma_where_true(list.len(), keep);
    lemma_in_order(ids_of(list), where_true(list.len(), keep));
}

/// Writes the line that describes an agent.
fn label(e: &RegistryEntry, metrics: &MetricText) -> (r: String)
    ensures
        r@ == entry_label(e@, (metrics.entropy@, metrics.score@)),
{
    let mut r: String = match e.lifecycle {
        AgentLifecycle::Alive => "●".to_owned(),
        AgentLifecycle::Discarded => "✕".to_owned(),
    };
    r.append(" ");
    r.append(e.label.as_str());
    r.append(" [H:");
    r.append(metrics.entropy.as_str());
    r.append(" S:");
    r.append(metrics.score.as_str());
    r.append(" ep:");
    r.append(number(e.episodes).as_str());
    r.append("]");
    r
}

fn find_children(entries: &Vec<RegistryEntry>, ids: &Vec<u64>, parent: Option<u64>) -> (r: Vec<
    usize,
>)
    requires
        ids@ == ids_of(entry_views(entries@)),
    ensures
        positions(r@) == children_of(entry_views(entries@), parent),
        forall|k: int| 0 <= k < r@.len() ==> #[trigger] r@[k] < entries@.len(),
{
    let ghost list = entry_views(entries@);
    let ghost keep = |i: int| list[i].parent_id == parent;
    let mut kept: Vec<usize> = Vec::new();
    let mut i: usize = 0;
    proof {
        assert(where_true(0, keep) =~= Seq::empty()) by {
            reveal(Seq::filter);
        }
        assert(positions(kept@) =~= Seq::empty());
    }
    while i < entries.len()
        invariant
            i <= entries@.len(),
            list == entry_views(entries@),
            keep == (|i: int| list[i].parent_id == parent),
            positions(kept@) == where_true(i as nat, keep),
            forall|k: int| 0 <= k < kept@.len() ==> #[trigger] kept@[k] < entries@.len(),
        decreases entries@.len() - i,
    {
        proof {
            lemma_where_true_step(i as nat, keep);
        }
        let same: bool = match (entries[i].parent_id, parent) {
            (None, None) => true,
            (Some(a), Some(b)) => a == b,
            _ => false,
        };
        if same {
            let ghost before = kept@;
            kept.push(i);
            proof {
                assert(positions(kept@) =~= positions(before).push(i as int));
            }
        }
        i = i + 1;
    }
    let r: Vec<usize> = sort_positions(ids, &kept);
    proof {
        lemma_children(list, parent);
        assert forall|k: int| 0 <= k < r@.len() implies #[trigger] r@[k] < entries@.len() by {
            assert(positions(r@)[k] == r@[k]);
            assert(children_of(list, parent).contains(positions(r@)[k]));
        }
    }
    r
}

/// Builds the trees below one agent.
fn make_items(
    entries: &Vec<RegistryEntry>,
    texts: &Vec<MetricText>,
    ids: &Vec<u64>,
    parent: Option<u64>,
    Ghost(path): Ghost<Seq<int>>,
) -> (r: Vec<TreeItem<'static, u64>>)
    requires
        distinct_ids(entry_views(entries@)),
        ids@ == ids_of(entry_views(entries@)),
        texts@.len() == entries@.len(),
        descends(entry_views(entries@), path),
        parent == parent_at(entry_views(entries@), path, path.len() as int),
        path.len() <= entries@.len(),
    ensures
        all_numbered_rows(r@) == forest(
            entry_views(entries@),
            metric_views(texts@),
            children_of(entry_views(entries@), parent),
            (entries@.len() - path.len()) as nat,
        ),
        numbered_ids(r@) == children_of(entry_views(entries@), parent).map_values(
            |i: int| entry_views(entries@)[i].agent_id,
        ),
        numbered_ids(r@).no_duplicates(),
    decreases entries@.len() - path.len(),
{
    let ghost list = entry_views(entries@);
    let ghost metrics = metric_views(texts@);
    let ghost levels = (entries@.len() - path.len()) as nat;
    let ghost name = |i: int| list[i].agent_id;
    let nodes: Vec<usize> = find_children(entries, ids, parent);
    let ghost order = children_of(list, parent);
    let mut r: Vec<TreeItem<'static, u64>> = Vec::new();
    let mut k: usize = 0;
    proof {
        lemma_children(list, parent);
        assert(order.take(0) =~= Seq::empty());
        assert(all_numbered_rows(r@) =~= Seq::empty());
        assert(numbered_ids(r@) =~= order.take(0).map_values(name));
    }
    while k < nodes.len()
        invariant
            k <= nodes@.len(),
            list == entry_views(entries@),
            metrics == metric_views(texts@),
            levels == entries@.len() - path.len(),
            name == (|i: int| list[i].agent_id),
            order == children_of(list, parent),
            order == positions(nodes@),
            distinct_ids(list),
            ids@ == ids_of(list),
            texts@.len() == entries@.len(),
            forall|j: int| 0 <= j < nodes@.len() ==> #[trigger] nodes@[j] < entries@.len(),
            descends(list, path),
            parent == parent_at(list, path, path.len() as int),
            forall|i: int| #[trigger]
                order.contains(i) ==> 0 <= i < list.len() && list[i].parent_id == parent,
            all_numbered_rows(r@) == forest(list, metrics, order.take(k as int), levels),
            numbered_ids(r@) == order.take(k as int).map_values(name),
        decreases nodes@.len() - k,
    {
        let i: usize = nodes[k];
        let entry: &RegistryEntry = &entries[i];
        let id: u64 = entry.agent_id;
        proof {
            assert(positions(nodes@)[k as int] == i);
            assert(order.contains(i as int));
            lemma_path_push(list, path, parent, i as int);
            lemma_path_length(list, path.push(i as int));
        }
        let children: Vec<TreeItem<'static, u64>> = make_items(
            entries,
            texts,
            ids,
            Some(id),
            Ghost(path.push(i as int)),
        );
        let text: String = label(entry, &texts[i]);
        let tint: Tint = match entry.lifecycle {
            AgentLifecycle::Alive => Tint::Green,
            AgentLifecycle::Discarded => Tint::DarkGray,
        };
        proof {
            assert(list[i as int] == entry@);
            assert(metrics[i as int] == (texts@[i as int].entropy@, texts@[i as int].score@));
            assert(seq![text@] == lineage_row(list, metrics, i as int).text);
        }
        let item: TreeItem<'static, u64> = numbered_item(id, text, tint, children).unwrap();
        let ghost before = r@;
        r.push(item);
        proof {
            lemma_numbered_push(before, item);
            assert(order.take(k + 1).drop_last() =~= order.take(k as int));
            assert(order.take(k + 1).last() == i);
            assert(r@ == before.push(item));
            assert(numbered_ids(r@) =~= order.take(k + 1).map_values(name));
        }
        k = k + 1;
    }
    proof {
        assert(order.take(k as int) =~= order);
        let ids_here = order.map_values(name);
        assert forall|a: int, b: int|
            0 <= a < ids_here.len() && 0 <= b < ids_here.len() && a != b implies ids_here[a]
            != ids_here[b] by {
            assert(order.contains(order[a]) && order.contains(order[b]));
            assert(order[a] != order[b]);
            if order[a] < order[b] {
                assert(list[order[a]].agent_id != list[order[b]].agent_id);
            } else {
                assert(list[order[b]].agent_id != list[order[a]].agent_id);
            }
        }
    }
    r
}

/// Builds the tree of all agents that descend from a root.
pub fn build_items(entries: &Vec<RegistryEntry>, texts: &Vec<MetricText>) -> (r: Vec<
    TreeItem<'static, u64>,
>)
    requires
        distinct_ids(entry_views(entries@)),
        texts@.len() == entries@.len(),
    ensures
        all_numbered_rows(r@) == lineage(entry_views(entries@), metric_views(texts@)),
        numbered_ids(r@) == top_ids(entry_views(entries@)),
        numbered_ids(r@).no_duplicates(),
{
    let mut ids: Vec<u64> = Vec::new();
    let mut i: usize = 0;
    while i < entries.len()
        invariant
            i <= entries@.len(),
            ids@ =~= ids_of(entry_views(entries@)).take(i as int),
        decreases entries@.len() - i,
    {
        ids.push(entries[i].agent_id);
        i = i + 1;
    }
    proof {
        assert(ids@ =~= ids_of(entry_views(entries@)));
    }
    make_items(entries, texts, &ids, None, Ghost(Seq::empty()))
}

/// The order in which [`forest`] comes past the agents.
pub open spec fn visits(list: Seq<EntryView>, nodes: Seq<int>, levels: nat) -> Seq<int>
    decreases levels, nodes.len(),
{
    if levels == 0 || nodes.len() == 0 {
        Seq::empty()
    } else {
        let i = nodes.last();
        visits(list, nodes.drop_last(), levels) + (seq![i] + visits(
            list,
            children_of(list, Some(list[i].agent_id)),
            (levels - 1) as nat,
        ))
    }
}

/// `path` leads to `i`, and does so past `above` and then one of `nodes`.
spec fn leads(
    list: Seq<EntryView>,
    above: Seq<int>,
    nodes: Seq<int>,
    path: Seq<int>,
    i: int,
) -> bool {
    &&& descends(list, path)
    &&& above.len() < path.len()
    &&& path.take(above.len() as int) == above
    &&& nodes.contains(path[above.len() as int])
    &&& path.last() == i
}

/// Some path leads to `i` that way.
spec fn reached(list: Seq<EntryView>, above: Seq<int>, nodes: Seq<int>, i: int) -> bool {
    exists|path: Seq<int>| #[trigger] leads(list, above, nodes, path, i)
}

/// All of `nodes` are children of the end of `above`; roots, if that is empty.
spec fn below(list: Seq<EntryView>, above: Seq<int>, nodes: Seq<int>) -> bool {
    &&& descends(list, above)
    &&& forall|i: int| #[trigger]
        nodes.contains(i) ==> 0 <= i < list.len() && list[i].parent_id == parent_at(
            list,
            above,
            above.len() as int,
        )
}

proof fn lemma_forest_visits(
    list: Seq<EntryView>,
    texts: Seq<(Seq<char>, Seq<char>)>,
    nodes: Seq<int>,
    levels: nat,
)
    ensures
        forest(list, texts, nodes, levels).len() == visits(list, nodes, levels).len(),
        forall|k: int|
            0 <= k < visits(list, nodes, levels).len() ==> (#[trigger] forest(
                list,
                texts,
                nodes,
                levels,
            )[k]).id == list[visits(list, nodes, levels)[k]].agent_id,
    decreases levels, nodes.len(),
{
    if levels > 0 && nodes.len() > 0 {
        let i = nodes.last();
        lemma_forest_visits(list, texts, nodes.drop_last(), levels);
        lemma_forest_visits(
            list,
            texts,
            children_of(list, Some(list[i].agent_id)),
            (levels - 1) as nat,
        );
    }
}

proof fn lemma_below_children(list: Seq<EntryView>, above: Seq<int>, nodes: Seq<int>)
    requires
        below(list, above, nodes),
        nodes.len() > 0,
    ensures
        below(list, above, nodes.drop_last()),
        below(
            list,
            above.push(nodes.last()),
            children_of(list, Some(list[nodes.last()].agent_id)),
        ),
{
    let i = nodes.last();
    assert(nodes.contains(i));
    lemma_path_push(list, above, parent_at(list, above, above.len() as int), i);
    lemma_children(list, Some(list[i].agent_id));
    assert forall|n: int| #[trigger] nodes.drop_last().contains(n) implies nodes.contains(n) by {
        let k = nodes.drop_last().index_of(n);
        assert(nodes[k] == n);
    }
}

/// A path past `above`, one of its children and further on is one past the
/// child.
proof fn lemma_leads_up(
    list: Seq<EntryView>,
    above: Seq<int>,
    nodes: Seq<int>,
    child: int,
    further: Seq<int>,
    path: Seq<int>,
    i: int,
)
    requires
        nodes.contains(child),
        leads(list, above.push(child), further, path, i),
    ensures
        leads(list, above, nodes, path, i),
        path[above.len() as int] == child,
{
    let next = above.push(child);
    assert(path.take(next.len() as int)[above.len() as int] == child);
    assert(path.take(above.len() as int) =~= above) by {
        assert forall|k: int| 0 <= k < above.len() implies path[k] == above[k] by {
            assert(path.take(next.len() as int)[k] == next[k]);
        }
    }
}

proof fn lemma_visits_lead(list: Seq<EntryView>, above: Seq<int>, nodes: Seq<int>, levels: nat)
    requires
        below(list, above, nodes),
    ensures
        forall|k: int|
            0 <= k < visits(list, nodes, levels).len() ==> reached(
                list,
                above,
                nodes,
                #[trigger] visits(list, nodes, levels)[k],
            ),
    decreases levels, nodes.len(),
{
    if levels > 0 && nodes.len() > 0 {
        let i = nodes.last();
        let rest = nodes.drop_last();
        let next = children_of(list, Some(list[i].agent_id));
        let left = visits(list, rest, levels);
        let right = visits(list, next, (levels - 1) as nat);
        lemma_below_children(list, above, nodes);
        lemma_visits_lead(list, above, rest, levels);
        lemma_visits_lead(list, above.push(i), next, (levels - 1) as nat);
        assert(nodes.contains(i));
        let all = visits(list, nodes, levels);
        assert forall|k: int| 0 <= k < all.len() implies reached(
            list,
            above,
            nodes,
            #[trigger] all[k],
        ) by {
            if k < left.len() {
                assert(all[k] == left[k]);
                assert(reached(list, above, rest, left[k]));
                let path = choose|path: Seq<int>| #[trigger]
                    leads(list, above, rest, path, left[k]);
                let at = rest.index_of(path[above.len() as int]);
                assert(nodes[at] == path[above.len() as int]);
                assert(leads(list, above, nodes, path, all[k]));
            } else if k == left.len() {
                assert(all[k] == i);
                let path = above.push(i);
                assert(path.take(above.len() as int) =~= above);
                assert(leads(list, above, nodes, path, all[k]));
            } else {
                let j = k - left.len() - 1;
                assert(all[k] == right[j]);
                assert(reached(list, above.push(i), next, right[j]));
                let path = choose|path: Seq<int>| #[trigger]
                    leads(list, above.push(i), next, path, right[j]);
                lemma_leads_up(list, above, nodes, i, next, path, right[j]);
                assert(leads(list, above, nodes, path, all[k]));
            }
        }
    }
}

proof fn lemma_leads_visited(
    list: Seq<EntryView>,
    above: Seq<int>,
    nodes: Seq<int>,
    levels: nat,
    path: Seq<int>,
    i: int,
)
    requires
        below(list, above, nodes),
        leads(list, above, nodes, path, i),
        path.len() - above.len() <= levels,
    ensures
        visits(list, nodes, levels).contains(i),
    decreases levels, nodes.len(),
{
    let child = path[above.len() as int];
    let last = nodes.last();
    let rest = nodes.drop_last();
    let next = children_of(list, Some(list[last].agent_id));
    let left = visits(list, rest, levels);
    let right = visits(list, next, (levels - 1) as nat);
    let all = visits(list, nodes, levels);
    assert(all == left + (seq![last] + right));
    lemma_below_children(list, above, nodes);
    if child == last {
        if path.len() == above.len() + 1 {
            assert(all[left.len() as int] == i);
        } else {
            let second = path[above.len() as int + 1];
            assert(list[second].parent_id == parent_at(list, path, above.len() as int + 1));
            lemma_children(list, Some(list[last].agent_id));
            assert(next.contains(second));
            assert(path.take(above.len() as int + 1) =~= above.push(last)) by {
                assert forall|k: int| 0 <= k < above.len() implies path[k] == above[k] by {
                    assert(path.take(above.len() as int)[k] == above[k]);
                }
            }
            lemma_leads_visited(list, above.push(last), next, (levels - 1) as nat, path, i);
            let k = right.index_of(i);
            assert(all[left.len() + 1 + k] == i);
        }
    } else {
        let at = nodes.index_of(child);
        assert(rest[at] == child);
        lemma_leads_visited(list, above, rest, levels, path, i);
        let k = left.index_of(i);
        assert(all[k] == i);
    }
}

/// An agent has one path from a root.
pub proof fn lemma_one_path(list: Seq<EntryView>, a: Seq<int>, b: Seq<int>)
    requires
        distinct_ids(list),
        descends(list, a),
        descends(list, b),
        a.len() > 0,
        b.len() > 0,
        a.last() == b.last(),
    ensures
        a == b,
    decreases a.len(),
{
    let x = a.len() - 1;
    let y = b.len() - 1;
    assert(list[a[x]].parent_id == parent_at(list, a, x));
    assert(list[b[y]].parent_id == parent_at(list, b, y));
    if x > 0 && y > 0 {
        let p = a[x - 1];
        let q = b[y - 1];
        assert(list[p].agent_id == list[q].agent_id);
        if p < q {
            assert(list[p].agent_id != list[q].agent_id);
        } else if q < p {
            assert(list[q].agent_id != list[p].agent_id);
        }
        lemma_path_shorter(list, a);
        lemma_path_shorter(list, b);
        lemma_one_path(list, a.drop_last(), b.drop_last());
        assert(a =~= a.drop_last().push(a.last()));
        assert(b =~= b.drop_last().push(b.last()));
    } else {
        assert(a =~= b);
    }
}

proof fn lemma_path_shorter(list: Seq<EntryView>, path: Seq<int>)
    requires
        descends(list, path),
        path.len() > 0,
    ensures
        descends(list, path.drop_last()),
{
    let shorter = path.drop_last();
    assert forall|k: int| 0 <= k < shorter.len() implies list[#[trigger] shorter[k]].parent_id
        == parent_at(list, shorter, k) && 0 <= shorter[k] < list.len() by {
        assert(list[path[k]].parent_id == parent_at(list, path, k));
    }
}

proof fn lemma_visits_distinct(list: Seq<EntryView>, above: Seq<int>, nodes: Seq<int>, levels: nat)
    requires
        distinct_ids(list),
        below(list, above, nodes),
        nodes.no_duplicates(),
    ensures
        visits(list, nodes, levels).no_duplicates(),
    decreases levels, nodes.len(),
{
    if levels > 0 && nodes.len() > 0 {
        let i = nodes.last();
        let rest = nodes.drop_last();
        let next = children_of(list, Some(list[i].agent_id));
        let left = visits(list, rest, levels);
        let right = visits(list, next, (levels - 1) as nat);
        let all = visits(list, nodes, levels);
        lemma_below_children(list, above, nodes);
        lemma_children(list, Some(list[i].agent_id));
        lemma_visits_distinct(list, above, rest, levels);
        lemma_visits_distinct(list, above.push(i), next, (levels - 1) as nat);
        lemma_visits_lead(list, above, rest, levels);
        lemma_visits_lead(list, above.push(i), next, (levels - 1) as nat);
        assert(descends(list, above.push(i)));
        assert forall|a: int, b: int| 0 <= a < b < all.len() implies all[a] != all[b] by {
            if a < left.len() && b >= left.len() {
                assert(reached(list, above, rest, left[a]));
                let pa = choose|path: Seq<int>| #[trigger] leads(list, above, rest, path, left[a]);
                let at = rest.index_of(pa[above.len() as int]);
                assert(nodes[at] != i);
                if all[a] == all[b] {
                    if b == left.len() {
                        lemma_one_path(list, pa, above.push(i));
                        assert(pa[above.len() as int] == i);
                    } else {
                        let j = b - left.len() - 1;
                        assert(reached(list, above.push(i), next, right[j]));
                        let pb = choose|path: Seq<int>| #[trigger]
                            leads(list, above.push(i), next, path, right[j]);
                        lemma_one_path(list, pa, pb);
                        assert(nodes.contains(i));
                        lemma_leads_up(list, above, nodes, i, next, pb, right[j]);
                    }
                }
            } else if a == left.len() {
                let j = b - left.len() - 1;
                assert(reached(list, above.push(i), next, right[j]));
                let pb = choose|path: Seq<int>| #[trigger]
                    leads(list, above.push(i), next, path, right[j]);
                if all[a] == all[b] {
                    lemma_one_path(list, above.push(i), pb);
                }
            } else if a < left.len() {
                assert(left[a] != left[b]);
            } else {
                assert(right[a - left.len() - 1] != right[b - left.len() - 1]);
            }
        }
    }
}

/// An agent descends from a root.
pub open spec fn rooted(list: Seq<EntryView>, i: int) -> bool {
    exists|path: Seq<int>| #[trigger] descends(list, path) && path.len() > 0 && path.last() == i
}

/// The lineage tree shows every agent that descends from a root, no other agent,
/// and no agent twice.
pub proof fn law_lineage_shows_the_rooted_once(
    list: Seq<EntryView>,
    texts: Seq<(Seq<char>, Seq<char>)>,
)
    requires
        distinct_ids(list),
    ensures
        forall|i: int|
            0 <= i < list.len() ==> (#[trigger] rooted(list, i) <==> exists|k: int|
                0 <= k < lineage(list, texts).len() && (#[trigger] lineage(list, texts)[k]).id
                    == list[i].agent_id),
        forall|a: int, b: int|
            0 <= a < b < lineage(list, texts).len() ==> (#[trigger] lineage(list, texts)[a]).id
                != (#[trigger] lineage(list, texts)[b]).id,
{
    let top = Seq::<int>::empty();
    let roots = children_of(list, None);
    let order = visits(list, roots, list.len());
    let rows = lineage(list, texts);
    lemma_children(list, None);
    assert(below(list, top, roots));
    lemma_forest_visits(list, texts, roots, list.len());
    lemma_visits_lead(list, top, roots, list.len());
    lemma_visits_distinct(list, top, roots, list.len());
    assert forall|k: int| 0 <= k < order.len() implies 0 <= #[trigger] order[k] < list.len()
        && rooted(list, order[k]) by {
        assert(reached(list, top, roots, order[k]));
        let path = choose|path: Seq<int>| #[trigger] leads(list, top, roots, path, order[k]);
        assert(descends(list, path));
        assert(0 <= path[path.len() - 1] < list.len());
    }
    assert forall|i: int| 0 <= i < list.len() implies (#[trigger] rooted(list, i) <==> exists|
        k: int,
    |
        0 <= k < rows.len() && (#[trigger] rows[k]).id == list[i].agent_id) by {
        if rooted(list, i) {
            let path = choose|path: Seq<int>| #[trigger]
                descends(list, path) && path.len() > 0 && path.last() == i;
            lemma_path_length(list, path);
            assert(list[path[0]].parent_id == parent_at(list, path, 0));
            assert(path.take(0) =~= top);
            lemma_leads_visited(list, top, roots, list.len(), path, i);
            let k = order.index_of(i);
            assert(rows[k].id == list[i].agent_id);
        }
        if exists|k: int| 0 <= k < rows.len() && (#[trigger] rows[k]).id == list[i].agent_id {
            let k = choose|k: int|
                0 <= k < rows.len() && (#[trigger] rows[k]).id == list[i].agent_id;
            let j = order[k];
            assert(list[j].agent_id == list[i].agent_id);
            if i < j {
                assert(list[i].agent_id != list[j].agent_id);
            } else if j < i {
                assert(list[j].agent_id != list[i].agent_id);
            }
        }
    }
    assert forall|a: int, b: int| 0 <= a < b < rows.len() implies (#[trigger] rows[a]).id != (
    #[trigger] rows[b]).id by {
        let x = order[a];
        let y = order[b];
        assert(x != y);
        if x < y {
            assert(list[x].agent_id != list[y].agent_id);
        } else {
            assert(list[y].agent_id != list[x].agent_id);
        }
    }
}

/// The children of an agent are those that name it as their parent, each once, by
/// ascending ID; and so are the roots, those that name none.
pub proof fn law_children_ascend(list: Seq<EntryView>, parent: Option<u64>, i: int, j: int)
    requires
        distinct_ids(list),
    ensures
        forall|n: int| #[trigger]
            children_of(list, parent).contains(n) <==> 0 <= n < list.len() && list[n].parent_id
                == parent,
        0 <= i < j < children_of(list, parent).len() ==> list[children_of(
            list,
            parent,
        )[i]].agent_id < list[children_of(list, parent)[j]].agent_id,
{
    let order = children_of(list, parent);
    let keep = |i: int| list[i].parent_id == parent;
    let kept = where_true(list.len(), keep);
    lemma_children(list, parent);
    if 0 <= i < j < order.len() {
        lemma_where_true(list.len(), keep);
        crate::order::law_sorting_is_stable(ids_of(list), kept, i, j);
        assert(order.contains(order[i]) && order.contains(order[j]));
        let (a, b) = (order[i], order[j]);
        assert(ids_of(list)[a] <= ids_of(list)[b]);
        if a < b {
            assert(list[a].agent_id != list[b].agent_id);
        } else {
            assert(list[b].agent_id != list[a].agent_id);
        }
    }
}

/// The row describes the agent at `i`.
pub open spec fn describes(
    list: Seq<EntryView>,
    texts: Seq<(Seq<char>, Seq<char>)>,
    row: Row<u64>,
    i: int,
) -> bool {
    &&& 0 <= i < list.len()
    &&& row.id == list[i].agent_id
    &&& row.text.len() == 1
    &&& row.text[0] == entry_label(list[i], texts[i])
    &&& row.tint == Some(
        if list[i].lifecycle == AgentLifecycle::Alive {
            Tint::Green
        } else {
            Tint::DarkGray
        },
    )
}

/// Every row describes an agent; those at the top one with the parent, every other
/// one whose parent's row it hangs from.
spec fn well_hung(
    list: Seq<EntryView>,
    texts: Seq<(Seq<char>, Seq<char>)>,
    rows: Seq<Row<u64>>,
    order: Seq<int>,
    parent: Option<u64>,
) -> bool {
    &&& rows.len() == order.len()
    &&& forall|k: int|
        #![trigger rows[k]]
        0 <= k < rows.len() ==> {
            &&& describes(list, texts, rows[k], order[k])
            &&& rows[k].depth == 0 ==> list[order[k]].parent_id == parent
            &&& rows[k].depth > 0 ==> hung(list, rows, order, k)
        }
}

/// A row hangs from that of its agent's parent.
spec fn hung(list: Seq<EntryView>, rows: Seq<Row<u64>>, order: Seq<int>, k: int) -> bool {
    exists|j: int| #[trigger]
        hangs_from(rows, k, j) && list[order[k]].parent_id == Some(rows[j].id)
}

/// Rows at the top, and rows that hang from the same one, stand by ascending ID.
spec fn ascending(rows: Seq<Row<u64>>) -> bool {
    &&& forall|a: int, b: int|
        0 <= a < b < rows.len() && (#[trigger] rows[a]).depth == 0 && (#[trigger] rows[b]).depth
            == 0 ==> rows[a].id < rows[b].id
    &&& forall|a: int, b: int, j: int|
        a < b && #[trigger] hangs_from(rows, a, j) && #[trigger] hangs_from(rows, b, j)
            ==> rows[a].id < rows[b].id
}

proof fn lemma_grown_hung(
    list: Seq<EntryView>,
    texts: Seq<(Seq<char>, Seq<char>)>,
    left: Seq<Row<u64>>,
    left_order: Seq<int>,
    i: int,
    right: Seq<Row<u64>>,
    right_order: Seq<int>,
    parent: Option<u64>,
)
    requires
        0 <= i < list.len(),
        list[i].parent_id == parent,
        well_hung(list, texts, left, left_order, parent),
        well_hung(list, texts, right, right_order, Some(list[i].agent_id)),
    ensures
        well_hung(
            list,
            texts,
            grown(left, lineage_row(list, texts, i), right),
            left_order + (seq![i] + right_order),
            parent,
        ),
{
    let row = lineage_row(list, texts, i);
    let all = grown(left, row, right);
    let order = left_order + (seq![i] + right_order);
    let n = left.len() as int;
    lemma_grown(left, row, right);
    assert forall|k: int|
        #![trigger all[k]]
        0 <= k < all.len() implies {
        &&& describes(list, texts, all[k], order[k])
        &&& all[k].depth == 0 ==> list[order[k]].parent_id == parent
        &&& all[k].depth > 0 ==> hung(list, all, order, k)
    } by {
        if k < n {
            assert(order[k] == left_order[k]);
            assert(describes(list, texts, left[k], left_order[k]));
            if left[k].depth > 0 {
                assert(hung(list, left, left_order, k));
                let j = choose|j: int| #[trigger]
                    hangs_from(left, k, j) && list[left_order[k]].parent_id == Some(left[j].id);
                lemma_grown_hangs(left, row, right, k, j);
                assert(hangs_from(all, k, j));
            }
        } else if k == n {
            assert(order[k] == i);
        } else {
            let h = k - n - 1;
            assert(order[k] == right_order[h]);
            assert(describes(list, texts, right[h], right_order[h]));
            if right[h].depth > 0 {
                assert(hung(list, right, right_order, h));
                let j = choose|j: int| #[trigger]
                    hangs_from(right, h, j) && list[right_order[h]].parent_id == Some(right[j].id);
                lemma_grown_hangs(left, row, right, k, n + 1 + j);
                assert(hangs_from(all, k, n + 1 + j));
            } else {
                lemma_grown_hangs(left, row, right, k, n);
                assert(hangs_from(all, k, n));
            }
        }
    }
}

proof fn lemma_grown_ascends(left: Seq<Row<u64>>, row: Row<u64>, right: Seq<Row<u64>>)
    requires
        row.depth == 0,
        ascending(left),
        ascending(right),
        forall|a: int|
            0 <= a < left.len() && (#[trigger] left[a]).depth == 0 ==> left[a].id < row.id,
    ensures
        ascending(grown(left, row, right)),
{
    let all = grown(left, row, right);
    let n = left.len() as int;
    lemma_grown(left, row, right);
    assert forall|a: int, b: int|
        0 <= a < b < all.len() && (#[trigger] all[a]).depth == 0 && (#[trigger] all[b]).depth
            == 0 implies all[a].id < all[b].id by {
        if b < n {
            assert(left[a].id < left[b].id);
        }
    }
    assert forall|a: int, b: int, j: int|
        a < b && #[trigger] hangs_from(all, a, j) && #[trigger] hangs_from(all, b, j) implies
        all[a].id < all[b].id by {
        lemma_grown_hangs(left, row, right, a, j);
        lemma_grown_hangs(left, row, right, b, j);
        if j == n {
            assert(right[a - n - 1].id < right[b - n - 1].id);
        }
    }
}

proof fn lemma_forest_hangs(
    list: Seq<EntryView>,
    texts: Seq<(Seq<char>, Seq<char>)>,
    nodes: Seq<int>,
    levels: nat,
    parent: Option<u64>,
)
    requires
        distinct_ids(list),
        forall|k: int|
            0 <= k < nodes.len() ==> 0 <= #[trigger] nodes[k] < list.len()
                && list[nodes[k]].parent_id == parent,
        forall|a: int, b: int|
            0 <= a < b < nodes.len() ==> list[#[trigger] nodes[a]].agent_id
                < list[#[trigger] nodes[b]].agent_id,
    ensures
        well_hung(
            list,
            texts,
            forest(list, texts, nodes, levels),
            visits(list, nodes, levels),
            parent,
        ),
        ascending(forest(list, texts, nodes, levels)),
        forall|k: int|
            0 <= k < forest(list, texts, nodes, levels).len() && (#[trigger] forest(
                list,
                texts,
                nodes,
                levels,
            )[k]).depth == 0 ==> nodes.contains(visits(list, nodes, levels)[k]),
    decreases levels, nodes.len(),
{
    if levels > 0 && nodes.len() > 0 {
        let i = nodes.last();
        assert(nodes[nodes.len() - 1] == i);
        let rest = nodes.drop_last();
        let id = list[i].agent_id;
        let next = children_of(list, Some(id));
        let below_levels = (levels - 1) as nat;
        assert forall|k: int| 0 <= k < rest.len() implies 0 <= #[trigger] rest[k] < list.len()
            && list[rest[k]].parent_id == parent by {
            assert(rest[k] == nodes[k]);
        }
        assert forall|a: int, b: int| 0 <= a < b < rest.len() implies list[
        #[trigger] rest[a]].agent_id < list[#[trigger] rest[b]].agent_id by {
            assert(rest[a] == nodes[a] && rest[b] == nodes[b]);
        }
        lemma_forest_hangs(list, texts, rest, levels, parent);
        lemma_children(list, Some(id));
        assert forall|k: int| 0 <= k < next.len() implies 0 <= #[trigger] next[k] < list.len()
            && list[next[k]].parent_id == Some(id) by {
            assert(next.contains(next[k]));
        }
        assert forall|a: int, b: int| 0 <= a < b < next.len() implies list[
        #[trigger] next[a]].agent_id < list[#[trigger] next[b]].agent_id by {
            law_children_ascend(list, Some(id), a, b);
        }
        lemma_forest_hangs(list, texts, next, below_levels, Some(id));
        let left = forest(list, texts, rest, levels);
        let left_order = visits(list, rest, levels);
        let right = forest(list, texts, next, below_levels);
        let right_order = visits(list, next, below_levels);
        assert forall|a: int| 0 <= a < left.len() && (#[trigger] left[a]).depth == 0 implies
            left[a].id < id by {
            let at = rest.index_of(left_order[a]);
            assert(list[nodes[at]].agent_id < list[nodes[nodes.len() - 1]].agent_id);
        }
        lemma_grown_hung(list, texts, left, left_order, i, right, right_order, parent);
        lemma_grown_ascends(left, lineage_row(list, texts, i), right);
        lemma_grown(left, lineage_row(list, texts, i), right);
        let all = forest(list, texts, nodes, levels);
        assert(all == grown(left, lineage_row(list, texts, i), right));
        let order = visits(list, nodes, levels);
        assert forall|k: int| 0 <= k < all.len() && (#[trigger] all[k]).depth == 0 implies
            nodes.contains(order[k]) by {
            if k < left.len() {
                assert(all[k] == left[k] && order[k] == left_order[k]);
                let at = rest.index_of(left_order[k]);
                assert(nodes[at] == order[k]);
            } else if k == left.len() {
                assert(order[k] == i);
            } else {
                assert(all[k].depth == right[k - left.len() - 1].depth + 1);
            }
        }
    }
}

/// Every row of the lineage describes an agent.  A row at the top describes a root;
/// every other hangs from the row of its agent's parent.  Roots, and agents that hang
/// from the same row, stand by ascending ID.
pub proof fn law_the_lineage_is_a_tree(
    list: Seq<EntryView>,
    texts: Seq<(Seq<char>, Seq<char>)>,
    k: int,
    other: int,
    above: int,
)
    requires
        distinct_ids(list),
        0 <= k < lineage(list, texts).len(),
    ensures
        ({
            let rows = lineage(list, texts);
            &&& exists|i: int|
                {
                    &&& #[trigger] describes(list, texts, rows[k], i)
                    &&& rows[k].depth == 0 <==> list[i].parent_id is None
                    &&& rows[k].depth > 0 ==> exists|j: int| #[trigger]
                        hangs_from(rows, k, j) && list[i].parent_id == Some(rows[j].id)
                }
            &&& k < other < rows.len() && rows[k].depth == 0 && rows[other].depth == 0
                ==> rows[k].id < rows[other].id
            &&& k < other && hangs_from(rows, k, above) && hangs_from(rows, other, above)
                ==> rows[k].id < rows[other].id
        }),
{
    let roots = children_of(list, None);
    let rows = lineage(list, texts);
    let order = visits(list, roots, list.len());
    lemma_children(list, None);
    assert forall|n: int| 0 <= n < roots.len() implies 0 <= #[trigger] roots[n] < list.len()
        && list[roots[n]].parent_id is None by {
        assert(roots.contains(roots[n]));
    }
    assert forall|a: int, b: int| 0 <= a < b < roots.len() implies list[
    #[trigger] roots[a]].agent_id < list[#[trigger] roots[b]].agent_id by {
        law_children_ascend(list, None, a, b);
    }
    lemma_forest_hangs(list, texts, roots, list.len(), None);
    assert(describes(list, texts, rows[k], order[k]));
    if rows[k].depth > 0 {
        assert(hung(list, rows, order, k));
    }
}

/// The line that describes an agent names everything in turn: the mark of its state,
/// its label, its entropy, its score and the number of its episodes.
pub proof fn law_labels_name_everything(e: EntryView, metrics: (Seq<char>, Seq<char>))
    ensures
        ({
            let l = entry_label(e, metrics);
            let a = 2 + e.label.len() as int;
            let b = a + 4 + metrics.0.len();
            let c = b + 3 + metrics.1.len();
            let d = c + 4 + decimal(e.episodes as nat).len();
            &&& l.len() == d + 1
            &&& e.lifecycle == AgentLifecycle::Alive ==> l[0] == '●'
            &&& e.lifecycle == AgentLifecycle::Discarded ==> l[0] == '✕'
            &&& l[1] == ' '
            &&& l.subrange(2, a) == e.label
            &&& l.subrange(a, a + 4) == seq![' ', '[', 'H', ':']
            &&& l.subrange(a + 4, b) == metrics.0
            &&& l.subrange(b, b + 3) == seq![' ', 'S', ':']
            &&& l.subrange(b + 3, c) == metrics.1
            &&& l.subrange(c, c + 4) == seq![' ', 'e', 'p', ':']
            &&& l.subrange(c + 4, d) == decimal(e.episodes as nat)
            &&& l[d] == ']'
        }),
{
    reveal_strlit("●");
    reveal_strlit("✕");
    reveal_strlit(" ");
    reveal_strlit(" [H:");
    reveal_strlit(" S:");
    reveal_strlit(" ep:");
    reveal_strlit("]");
    let l = entry_label(e, metrics);
    let a = 2 + e.label.len() as int;
    let b = a + 4 + metrics.0.len();
    let c = b + 3 + metrics.1.len();
    let d = c + 4 + decimal(e.episodes as nat).len();
    assert(l.subrange(2, a) =~= e.label);
    assert(l.subrange(a, a + 4) =~= seq![' ', '[', 'H', ':']);
    assert(l.subrange(a + 4, b) =~= metrics.0);
    assert(l.subrange(b, b + 3) =~= seq![' ', 'S', ':']);
    assert(l.subrange(b + 3, c) =~= metrics.1);
    assert(l.subrange(c, c + 4) =~= seq![' ', 'e', 'p', ':']);
    assert(l.subrange(c + 4, d) =~= decimal(e.episodes as nat));
}

} // verus!
