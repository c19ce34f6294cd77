//! The lineage of the agents in training, as a tree.

use crate::dqn_tracker_main::agents::{
    current, lemma_last_place, names_of, Agent, AgentRegistry, AgentStatus, AgentView,
    RegistryView,
};
use crate::text::{decimal, number, pad_left, padded, views};
use crate::tree_widget::{
    all_named_rows, deepen, grown, hangs_from, lemma_grown, lemma_grown_hangs, lemma_named_push,
    named_ids, named_item, named_leaf, named_rows, text_lines, Row,
};
use tui_tree_widget::TreeItem;
use vstd::prelude::*;
use vstd::string::*;

verus! {

/// The rewards of an agent, written out as numbers to one place.
#[derive(Debug)]
pub struct RewardText {
    pub average: String,
    pub best: String,
}

/// What a [`RewardText`] says: average, then best.
pub open spec fn reward_views(texts: Seq<RewardText>) -> Seq<(Seq<char>, Seq<char>)> {
    texts.map_values(|t: RewardText| (t.average@, t.best@))
}

/// The mark of a status.
pub open spec fn status_mark(status: AgentStatus) -> Seq<char> {
    match status {
        AgentStatus::Training => "[~]"@,
        AgentStatus::Finished => "[OK]"@,
        AgentStatus::Best => "[*]"@,
    }
}

/// The line that describes an agent.
pub open spec fn agent_label(a: AgentView, rewards: (Seq<char>, Seq<char>)) -> Seq<char> {
    status_mark(a.status) + " "@ + a.id + " | ep:"@ + pad_left(decimal(a.episodes.len()), 3)
        + " | avg:"@ + pad_left(rewards.0, 7) + " | best:"@ + pad_left(rewards.1, 7)
}

pub open spec fn agent_row(
    agents: Seq<AgentView>,
    texts: Seq<(Seq<char>, Seq<char>)>,
    i: int,
) -> Row<Seq<char>> {
    Row {
        depth: 0,
        id: agents[i].id,
        text: text_lines(agent_label(agents[i], texts[i])),
        tint: None,
    }
}

/// The agents that `names` mean, each above its descendants.  Each comes after
/// the agent above it, which stands at `above`.
pub open spec fn branches(
    agents: Seq<AgentView>,
    texts: Seq<(Seq<char>, Seq<char>)>,
    above: int,
    names: Seq<Seq<char>>,
) -> Seq<Row<Seq<char>>>
    decreases agents.len() - above, names.len(),
{
    if names.len() == 0 {
        Seq::empty()
    } else {
        branches(agents, texts, above, names.drop_last()) + match current(agents, names.last()) {
            Some(i) if above < i < agents.len() => seq![agent_row(agents, texts, i)] + deepen(
                branches(agents, texts, i, agents[i].children),
            ),
            _ => Seq::empty(),
        }
    }
}

/// No agent below has two children of one name.
pub open spec fn tidy(agents: Seq<AgentView>, above: int, names: Seq<Seq<char>>) -> bool
    decreases agents.len() - above, names.len(),
{
    names.len() == 0 || {
        &&& tidy(agents, above, names.drop_last())
        &&& match current(agents, names.last()) {
            Some(i) if above < i < agents.len() => agents[i].children.no_duplicates() && tidy(
                agents,
                i,
                agents[i].children,
            ),
            _ => true,
        }
    }
}

/// The tree of all agents.
pub open spec fn family_tree(r: RegistryView, texts: Seq<(Seq<char>, Seq<char>)>) -> Seq<
    Row<Seq<char>>,
> {
    branches(r.agents, texts, -1, r.root_ids)
}

/// What is untidy stays untidy with more names.
proof fn lemma_untidy(agents: Seq<AgentView>, above: int, names: Seq<Seq<char>>, n: int)
    requires
        0 <= n <= names.len(),
        !tidy(agents, above, names.take(n)),
    ensures
        !tidy(agents, above, names),
    decreases names.len() - n,
{
    if n == names.len() {
        assert(names.take(n) =~= names);
    } else {
        assert(names.take(n + 1).drop_last() =~= names.take(n));
        lemma_untidy(agents, above, names, n + 1);
    }
}

fn label(a: &Agent, rewards: &RewardText) -> (r: String)
    ensures
        r@ == agent_label(a@, (rewards.average@, rewards.best@)),
{
    let mut r: String = match a.status {
        AgentStatus::Training => "[~]".to_owned(),
        AgentStatus::Finished => "[OK]".to_owned(),
        AgentStatus::Best => "[*]".to_owned(),
    };
    r.append(" ");
    r.append(a.id.as_str());
    r.append(" | ep:");
    r.append(padded(number(a.episodes.len() as u64).as_str(), 3).as_str());
    r.append(" | avg:");
    r.append(padded(rewards.average.as_str(), 7).as_str());
    r.append(" | best:");
    r.append(padded(rewards.best.as_str(), 7).as_str());
    r
}

/// Builds the trees of the agents that `names` mean.
fn make_items(
    registry: &AgentRegistry,
    texts: &Vec<RewardText>,
    names: &Vec<String>,
    Ghost(above): Ghost<int>,
) -> (r: Option<Vec<TreeItem<'static, String>>>)
    requires
        registry@.wf(),
        texts@.len() == registry@.agents.len(),
        -1 <= above < registry@.agents.len(),
        forall|k: int| 0 <= k < names@.len() ==> registry@.after(above, #[trigger] views(names@)[k]),
    ensures
        r is Some <==> tidy(registry@.agents, above, views(names@)),
        r matches Some(items) ==> all_named_rows(items@) == branches(
            registry@.agents,
            reward_views(texts@),
            above,
            views(names@),
        ),
        r matches Some(items) ==> named_ids(items@) == views(names@),
    decreases registry@.agents.len() - above,
{
    let ghost agents = registry@.agents;
    let ghost rewards = reward_views(texts@);
    let ghost all = views(names@);
    let mut r: Vec<TreeItem<'static, String>> = Vec::new();
    let mut k: usize = 0;
    proof {
        assert(all.take(0) =~= Seq::empty());
        assert(all_named_rows(r@) =~= Seq::empty());
        assert(named_ids(r@) =~= all.take(0));
    }
    while k < names.len()
        invariant
            k <= names@.len(),
            agents == registry@.agents,
            rewards == reward_views(texts@),
            all == views(names@),
            registry@.wf(),
            texts@.len() == agents.len(),
            -1 <= above < agents.len(),
            forall|j: int| 0 <= j < all.len() ==> registry@.after(above, #[trigger] all[j]),
            tidy(agents, above, all.take(k as int)),
            all_named_rows(r@) == branches(agents, rewards, above, all.take(k as int)),
            named_ids(r@) == all.take(k as int),
        decreases names@.len() - k,
    {
        let name: &String = &names[k];
        proof {
            assert(all[k as int] == name@);
            assert(registry@.after(above, all[k as int]));
            assert(all.take(k + 1).drop_last() =~= all.take(k as int));
            assert(all.take(k + 1).last() == name@);
        }
        let i: usize = registry.find(name).unwrap();
        let a: &Agent = registry.agent(i);
        let text: String = label(a, &texts[i]);
        proof {
            assert(rewards[i as int] == (texts@[i as int].average@, texts@[i as int].best@));
            assert(agents[i as int] == a@);
            lemma_last_place(
                names_of(agents),
                name@,
            );
            assert(agents[i as int].id == name@);
            assert forall|j: int| 0 <= j < views(a.children@).len() implies registry@.after(
                i as int,
                #[trigger] views(a.children@)[j],
            ) by {
                assert(registry@.after(i as int, agents[i as int].children[j]));
            }
        }
        let item: TreeItem<'static, String> = if a.children.len() == 0 {
            let leaf: TreeItem<'static, String> = named_leaf(name.clone(), text);
            proof {
                assert(agents[i as int].children =~= Seq::empty());
                assert(tidy(agents, i as int, agents[i as int].children));
                assert(deepen(branches(agents, rewards, i as int, agents[i as int].children))
                    =~= Seq::empty());
                assert(named_rows(leaf) =~= seq![agent_row(agents, rewards, i as int)] + deepen(
                    branches(agents, rewards, i as int, agents[i as int].children),
                ));
            }
            leaf
        } else {
            match make_items(registry, texts, &a.children, Ghost(i as int)) {
                Some(children) => match named_item(name.clone(), text, children) {
                    Some(item) => item,
                    None => {
                        proof {
                            assert(!tidy(agents, above, all.take(k + 1)));
                            lemma_untidy(agents, above, all, k + 1);
                        }
                        return None;
                    },
                },
                None => {
                    proof {
                        assert(!tidy(agents, above, all.take(k + 1)));
                        lemma_untidy(agents, above, all, k + 1);
                    }
                    return None;
                },
            }
        };
        let ghost before = r@;
        r.push(item);
        proof {
            lemma_named_push(before, item);
            assert(agents[i as int].children.no_duplicates());
            assert(tidy(agents, i as int, agents[i as int].children));
            assert(named_rows(item)[0].id == name@);
            assert(named_ids(r@) =~= all.take(k + 1));
        }
        k = k + 1;
    }
    proof {
        assert(all.take(k as int) =~= all);
    }
    Some(r)
}

/// Builds the tree of all agents; refuses if an agent has two children of one
/// name.
pub fn build_items(registry: &AgentRegistry, texts: &Vec<RewardText>) -> (r: Option<
    Vec<TreeItem<'static, String>>,
>)
    requires
        texts@.len() == registry@.agents.len(),
    ensures
        r is Some <==> tidy(registry@.agents, -1, registry@.root_ids),
        r matches Some(items) ==> all_named_rows(items@) == family_tree(
            registry@,
            reward_views(texts@),
        ),
        r matches Some(items) ==> named_ids(items@) == registry@.root_ids,
{
    proof {
        use_type_invariant(registry);
        assert forall|k: int| 0 <= k < registry@.root_ids.len() implies registry@.after(
            -1,
            #[trigger] registry@.root_ids[k],
        ) by {
            lemma_last_place(
                names_of(registry@.agents),
                registry@.root_ids[k],
            );
        }
    }
    make_items(registry, texts, registry.root_ids(), Ghost(-1int))
}

/// The row describes the agent at `i`, which is the one that its name means.
pub open spec fn describes(
    agents: Seq<AgentView>,
    texts: Seq<(Seq<char>, Seq<char>)>,
    row: Row<Seq<char>>,
    i: int,
) -> bool {
    &&& 0 <= i < agents.len()
    &&& current(agents, row.id) == Some(i)
    &&& row.id == agents[i].id
    &&& row.text == text_lines(agent_label(agents[i], texts[i]))
    &&& row.tint is None
}

/// The agent that a row describes.
pub open spec fn shown(agents: Seq<AgentView>, row: Row<Seq<char>>) -> AgentView {
    agents[current(agents, row.id)->0]
}

/// The row `k` hangs from the row of an agent that has the row's one as a child.
spec fn hung(agents: Seq<AgentView>, rows: Seq<Row<Seq<char>>>, k: int) -> bool {
    exists|j: int| #[trigger]
        hangs_from(rows, k, j) && shown(agents, rows[j]).children.contains(rows[k].id)
}

/// The rows describe agents; those at the top are of the names, every other hangs
/// from its parent's.
spec fn well_hung(
    agents: Seq<AgentView>,
    texts: Seq<(Seq<char>, Seq<char>)>,
    rows: Seq<Row<Seq<char>>>,
    names: Seq<Seq<char>>,
) -> bool {
    forall|k: int|
        #![trigger rows[k]]
        0 <= k < rows.len() ==> {
            &&& describes(agents, texts, rows[k], current(agents, rows[k].id)->0)
            &&& rows[k].depth == 0 ==> names.contains(rows[k].id)
            &&& rows[k].depth > 0 ==> hung(agents, rows, k)
        }
}

/// A row of this name hangs from the row `k`.
spec fn bears(rows: Seq<Row<Seq<char>>>, k: int, name: Seq<char>) -> bool {
    exists|m: int| #[trigger] hangs_from(rows, m, k) && rows[m].id == name
}

/// A row of this name stands at the top.
spec fn tops(rows: Seq<Row<Seq<char>>>, name: Seq<char>) -> bool {
    exists|m: int| 0 <= m < rows.len() && (#[trigger] rows[m]).depth == 0 && rows[m].id == name
}

/// There is a row at the top for each of the names, and from each row one hangs for
/// each child of its agent.
spec fn complete(
    agents: Seq<AgentView>,
    rows: Seq<Row<Seq<char>>>,
    names: Seq<Seq<char>>,
) -> bool {
    &&& forall|x: int| 0 <= x < names.len() ==> tops(rows, #[trigger] names[x])
    &&& forall|k: int, x: int|
        0 <= k < rows.len() && 0 <= x < shown(agents, rows[k]).children.len() ==> bears(
            rows,
            k,
            #[trigger] shown(agents, rows[k]).children[x],
        )
}

/// `a` stands before `b` in the list.
pub open spec fn listed_before(names: Seq<Seq<char>>, a: Seq<char>, b: Seq<char>) -> bool {
    exists|x: int, y: int|
        0 <= x < y < names.len() && #[trigger] names[x] == a && #[trigger] names[y] == b
}

/// Rows at the top stand in the order of the names, and rows that hang from the same
/// one in the order of its agent's children.
spec fn lined_up(
    agents: Seq<AgentView>,
    rows: Seq<Row<Seq<char>>>,
    names: Seq<Seq<char>>,
) -> bool {
    &&& forall|a: int, b: int|
        0 <= a < b < rows.len() && (#[trigger] rows[a]).depth == 0 && (#[trigger] rows[b]).depth
            == 0 ==> listed_before(names, rows[a].id, rows[b].id)
    &&& forall|a: int, b: int, j: int|
        a < b && #[trigger] hangs_from(rows, a, j) && #[trigger] hangs_from(rows, b, j)
            ==> listed_before(shown(agents, rows[j]).children, rows[a].id, rows[b].id)
}

/// No agent that is shown has two children of one name.
spec fn no_twins(agents: Seq<AgentView>, rows: Seq<Row<Seq<char>>>) -> bool {
    forall|k: int|
        0 <= k < rows.len() ==> shown(agents, #[trigger] rows[k]).children.no_duplicates()
}

/// What the rows of one agent more, behind those of others, are like.
#[verifier::rlimit(30)]
proof fn lemma_grown_named(
    agents: Seq<AgentView>,
    texts: Seq<(Seq<char>, Seq<char>)>,
    left: Seq<Row<Seq<char>>>,
    names: Seq<Seq<char>>,
    i: int,
    right: Seq<Row<Seq<char>>>,
)
    requires
        names.len() > 0,
        current(agents, names.last()) == Some(i),
        0 <= i < agents.len(),
        agents[i].id == names.last(),
        well_hung(agents, texts, left, names.drop_last()),
        well_hung(agents, texts, right, agents[i].children),
    ensures
        well_hung(agents, texts, grown(left, agent_row(agents, texts, i), right), names),
{
    let row = agent_row(agents, texts, i);
    let all = grown(left, row, right);
    let n = left.len() as int;
    let rest = names.drop_last();
    lemma_grown(left, row, right);
    assert forall|k: int|
        #![trigger all[k]]
        0 <= k < all.len() implies {
        &&& describes(agents, texts, all[k], current(agents, all[k].id)->0)
        &&& all[k].depth == 0 ==> names.contains(all[k].id)
        &&& all[k].depth > 0 ==> hung(agents, all, k)
    } by {
        if k < n {
            assert(describes(agents, texts, left[k], current(agents, left[k].id)->0));
            if left[k].depth == 0 {
                let x = rest.index_of(left[k].id);
                assert(names[x] == left[k].id);
            } else {
                assert(hung(agents, left, k));
                let j = choose|j: int| #[trigger]
                    hangs_from(left, k, j) && shown(agents, left[j]).children.contains(left[k].id);
                lemma_grown_hangs(left, row, right, k, j);
                assert(hangs_from(all, k, j));
            }
        } else if k == n {
            assert(names[names.len() - 1] == row.id);
        } else {
            let h = k - n - 1;
            assert(describes(agents, texts, right[h], current(agents, right[h].id)->0));
            if right[h].depth > 0 {
                assert(hung(agents, right, h));
                let j = choose|j: int| #[trigger]
                    hangs_from(right, h, j) && shown(agents, right[j]).children.contains(
                        right[h].id,
                    );
                lemma_grown_hangs(left, row, right, k, n + 1 + j);
                assert(hangs_from(all, k, n + 1 + j));
                assert(all[n + 1 + j].id == right[j].id);
            } else {
                lemma_grown_hangs(left, row, right, k, n);
                assert(hangs_from(all, k, n));
                assert(shown(agents, all[n]) == agents[i]);
            }
        }
    }
}

proof fn lemma_grown_complete(
    agents: Seq<AgentView>,
    left: Seq<Row<Seq<char>>>,
    names: Seq<Seq<char>>,
    row: Row<Seq<char>>,
    right: Seq<Row<Seq<char>>>,
)
    requires
        names.len() > 0,
        row.depth == 0,
        row.id == names.last(),
        complete(agents, left, names.drop_last()),
        complete(agents, right, shown(agents, row).children),
    ensures
        complete(agents, grown(left, row, right), names),
{
    let all = grown(left, row, right);
    let n = left.len() as int;
    let rest = names.drop_last();
    lemma_grown(left, row, right);
    assert forall|x: int| 0 <= x < names.len() implies tops(all, #[trigger] names[x]) by {
        if x < rest.len() {
            assert(tops(left, rest[x]));
            let m = choose|m: int|
                0 <= m < left.len() && (#[trigger] left[m]).depth == 0 && left[m].id == rest[x];
            assert(all[m] == left[m]);
        } else {
            assert(all[n].depth == 0);
        }
    }
    assert forall|k: int, x: int|
        0 <= k < all.len() && 0 <= x < shown(agents, all[k]).children.len() implies bears(
        all,
        k,
        #[trigger] shown(agents, all[k]).children[x],
    ) by {
        let name = shown(agents, all[k]).children[x];
        if k < n {
            assert(bears(left, k, shown(agents, left[k]).children[x]));
            let m = choose|m: int| #[trigger] hangs_from(left, m, k) && left[m].id == name;
            lemma_grown_hangs(left, row, right, m, k);
            assert(hangs_from(all, m, k));
        } else if k == n {
            assert(tops(right, shown(agents, row).children[x]));
            let m = choose|m: int|
                0 <= m < right.len() && (#[trigger] right[m]).depth == 0 && right[m].id == name;
            lemma_grown_hangs(left, row, right, n + 1 + m, n);
            assert(hangs_from(all, n + 1 + m, n));
        } else {
            let h = k - n - 1;
            assert(shown(agents, right[h]) == shown(agents, all[k]));
            assert(bears(right, h, shown(agents, right[h]).children[x]));
            let m = choose|m: int| #[trigger] hangs_from(right, m, h) && right[m].id == name;
            lemma_grown_hangs(left, row, right, n + 1 + m, k);
            assert(hangs_from(all, n + 1 + m, k));
        }
    }
}

proof fn lemma_grown_lined_up(
    agents: Seq<AgentView>,
    texts: Seq<(Seq<char>, Seq<char>)>,
    left: Seq<Row<Seq<char>>>,
    names: Seq<Seq<char>>,
    row: Row<Seq<char>>,
    right: Seq<Row<Seq<char>>>,
)
    requires
        names.len() > 0,
        row.depth == 0,
        row.id == names.last(),
        well_hung(agents, texts, left, names.drop_last()),
        lined_up(agents, left, names.drop_last()),
        lined_up(agents, right, shown(agents, row).children),
    ensures
        lined_up(agents, grown(left, row, right), names),
{
    let all = grown(left, row, right);
    let n = left.len() as int;
    let rest = names.drop_last();
    lemma_grown(left, row, right);
    assert forall|a: int, b: int|
        0 <= a < b < all.len() && (#[trigger] all[a]).depth == 0 && (#[trigger] all[b]).depth
            == 0 implies listed_before(names, all[a].id, all[b].id) by {
        if b < n {
            assert(listed_before(rest, left[a].id, left[b].id));
            let (x, y) = choose|x: int, y: int|
                0 <= x < y < rest.len() && #[trigger] rest[x] == left[a].id && #[trigger] rest[y]
                    == left[b].id;
            assert(names[x] == rest[x] && names[y] == rest[y]);
        } else {
            assert(b == n);
            assert(rest.contains(left[a].id));
            let x = rest.index_of(left[a].id);
            let y = names.len() - 1;
            assert(names[x] == all[a].id && names[y] == all[b].id);
        }
    }
    assert forall|a: int, b: int, j: int|
        a < b && #[trigger] hangs_from(all, a, j) && #[trigger] hangs_from(all, b, j) implies
        listed_before(shown(agents, all[j]).children, all[a].id, all[b].id) by {
        lemma_grown_hangs(left, row, right, a, j);
        lemma_grown_hangs(left, row, right, b, j);
        if j == n {
            assert(listed_before(
                shown(agents, row).children,
                right[a - n - 1].id,
                right[b - n - 1].id,
            ));
        } else if j > n {
            assert(shown(agents, all[j]) == shown(agents, right[j - n - 1]));
        }
    }
}

proof fn lemma_branches(
    r: RegistryView,
    texts: Seq<(Seq<char>, Seq<char>)>,
    above: int,
    names: Seq<Seq<char>>,
)
    requires
        r.wf(),
        -1 <= above < r.agents.len(),
        forall|x: int| 0 <= x < names.len() ==> r.after(above, #[trigger] names[x]),
    ensures
        ({
            let rows = branches(r.agents, texts, above, names);
            &&& well_hung(r.agents, texts, rows, names)
            &&& complete(r.agents, rows, names)
            &&& lined_up(r.agents, rows, names)
            &&& tidy(r.agents, above, names) <==> no_twins(r.agents, rows)
        }),
    decreases r.agents.len() - above, names.len(),
{
    let agents = r.agents;
    if names.len() > 0 {
        let rest = names.drop_last();
        let name = names.last();
        assert(r.after(above, names[names.len() - 1]));
        let i = current(agents, name)->0;
        lemma_last_place(names_of(agents), name);
        assert(agents[i].id == name);
        assert forall|x: int| 0 <= x < rest.len() implies r.after(above, #[trigger] rest[x]) by {
            assert(rest[x] == names[x]);
        }
        lemma_branches(r, texts, above, rest);
        assert forall|x: int| 0 <= x < agents[i].children.len() implies r.after(
            i,
            #[trigger] agents[i].children[x],
        ) by {}
        lemma_branches(r, texts, i, agents[i].children);
        let left = branches(agents, texts, above, rest);
        let right = branches(agents, texts, i, agents[i].children);
        let row = agent_row(agents, texts, i);
        let all = branches(agents, texts, above, names);
        assert(all == grown(left, row, right));
        assert(shown(agents, row) == agents[i]);
        lemma_grown_named(agents, texts, left, names, i, right);
        lemma_grown_complete(agents, left, names, row, right);
        lemma_grown_lined_up(agents, texts, left, names, row, right);
        lemma_grown(left, row, right);
        let n = left.len() as int;
        if no_twins(agents, all) {
            assert forall|k: int| 0 <= k < left.len() implies shown(
                agents,
                #[trigger] left[k],
            ).children.no_duplicates() by {
                assert(shown(agents, all[k]).children.no_duplicates());
            }
            assert forall|k: int| 0 <= k < right.len() implies shown(
                agents,
                #[trigger] right[k],
            ).children.no_duplicates() by {
                assert(shown(agents, all[n + 1 + k]).children.no_duplicates());
            }
            assert(shown(agents, all[n]).children.no_duplicates());
        }
        if no_twins(agents, left) && no_twins(agents, right)
            && agents[i].children.no_duplicates() {
            assert forall|k: int| 0 <= k < all.len() implies shown(
                agents,
                #[trigger] all[k],
            ).children.no_duplicates() by {
                if k < n {
                    assert(shown(agents, left[k]).children.no_duplicates());
                } else if k > n {
                    assert(shown(agents, right[k - n - 1]).children.no_duplicates());
                }
            }
        }
    }
}

/// Every row of the tree describes the agent that its name means.  At the top are
/// the roots, all of them, in their order.  Every other row hangs from that of an
/// agent whose child it is; from the row of an agent, one hangs for each of its
/// children, in their order.
pub proof fn law_the_family_tree_is_complete(
    r: RegistryView,
    texts: Seq<(Seq<char>, Seq<char>)>,
    k: int,
    other: int,
    x: int,
)
    requires
        r.wf(),
    ensures
        ({
            let rows = family_tree(r, texts);
            &&& 0 <= x < r.root_ids.len() ==> exists|m: int|
                0 <= m < rows.len() && (#[trigger] rows[m]).depth == 0 && rows[m].id
                    == r.root_ids[x]
            &&& 0 <= k < rows.len() ==> {
                let agent = shown(r.agents, rows[k]);
                &&& describes(r.agents, texts, rows[k], current(r.agents, rows[k].id)->0)
                &&& rows[k].depth == 0 ==> r.root_ids.contains(rows[k].id)
                &&& rows[k].depth > 0 ==> exists|j: int| #[trigger]
                    hangs_from(rows, k, j) && shown(r.agents, rows[j]).children.contains(
                        rows[k].id,
                    )
                &&& 0 <= x < agent.children.len() ==> exists|m: int| #[trigger]
                    hangs_from(rows, m, k) && rows[m].id == agent.children[x]
                &&& k < other < rows.len() && rows[k].depth == 0 && rows[other].depth == 0
                    ==> listed_before(r.root_ids, rows[k].id, rows[other].id)
                &&& forall|j: int|
                    k < other && #[trigger] hangs_from(rows, k, j) && hangs_from(rows, other, j)
                        ==> listed_before(
                        shown(r.agents, rows[j]).children,
                        rows[k].id,
                        rows[other].id,
                    )
            }
        }),
{
    let rows = family_tree(r, texts);
    lemma_roots_follow(r);
    lemma_branches(r, texts, -1, r.root_ids);
    if 0 <= x < r.root_ids.len() {
        assert(tops(rows, r.root_ids[x]));
    }
    if 0 <= k < rows.len() {
        assert(describes(r.agents, texts, rows[k], current(r.agents, rows[k].id)->0));
        if rows[k].depth > 0 {
            assert(hung(r.agents, rows, k));
        }
        if 0 <= x < shown(r.agents, rows[k]).children.len() {
            assert(bears(rows, k, shown(r.agents, rows[k]).children[x]));
        }
    }
}

proof fn lemma_roots_follow(r: RegistryView)
    requires
        r.wf(),
    ensures
        forall|x: int| 0 <= x < r.root_ids.len() ==> r.after(-1, #[trigger] r.root_ids[x]),
{
    assert forall|x: int| 0 <= x < r.root_ids.len() implies r.after(
        -1,
        #[trigger] r.root_ids[x],
    ) by {
        lemma_last_place(names_of(r.agents), r.root_ids[x]);
    }
}

/// There is a tree exactly if no agent in it has two children of one name.
pub proof fn law_twins_spoil_the_tree(r: RegistryView, texts: Seq<(Seq<char>, Seq<char>)>)
    requires
        r.wf(),
    ensures
        tidy(r.agents, -1, r.root_ids) <==> forall|k: int|
            0 <= k < family_tree(r, texts).len() ==> shown(
                r.agents,
                #[trigger] family_tree(r, texts)[k],
            ).children.no_duplicates(),
{
    lemma_roots_follow(r);
    lemma_branches(r, texts, -1, r.root_ids);
}

/// The line that describes an agent names everything in turn: the mark of its state,
/// its name, the number of its episodes in three places, and its average and its best
/// reward in seven.
pub proof fn law_labels_name_everything(a: AgentView, rewards: (Seq<char>, Seq<char>))
    ensures
        ({
            let l = agent_label(a, rewards);
            let mark = if a.status == AgentStatus::Finished {
                seq!['[', 'O', 'K', ']', ' ']
            } else if a.status == AgentStatus::Best {
                seq!['[', '*', ']', ' ']
            } else {
                seq!['[', '~', ']', ' ']
            };
            let episodes = pad_left(decimal(a.episodes.len()), 3);
            let average = pad_left(rewards.0, 7);
            let best = pad_left(rewards.1, 7);
            let m = mark.len() as int;
            let b = m + a.id.len();
            let c = b + 6 + episodes.len();
            let d = c + 7 + average.len();
            &&& l.len() == d + 8 + best.len()
            &&& l.subrange(0, m) == mark
            &&& l.subrange(m, b) == a.id
            &&& l.subrange(b, b + 6) == seq![' ', '|', ' ', 'e', 'p', ':']
            &&& l.subrange(b + 6, c) == episodes
            &&& l.subrange(c, c + 7) == seq![' ', '|', ' ', 'a', 'v', 'g', ':']
            &&& l.subrange(c + 7, d) == average
            &&& l.subrange(d, d + 8) == seq![' ', '|', ' ', 'b', 'e', 's', 't', ':']
            &&& l.subrange(d + 8, l.len() as int) == best
        }),
{
    reveal_strlit("[~]");
    reveal_strlit("[OK]");
    reveal_strlit("[*]");
    reveal_strlit(" ");
    reveal_strlit(" | ep:");
    reveal_strlit(" | avg:");
    reveal_strlit(" | best:");
    let l = agent_label(a, rewards);
    let mark = status_mark(a.status) + " "@;
    let episodes = pad_left(decimal(a.episodes.len()), 3);
    let average = pad_left(rewards.0, 7);
    let best = pad_left(rewards.1, 7);
    let m = mark.len() as int;
    let b = m + a.id.len();
    let c = b + 6 + episodes.len();
    let d = c + 7 + average.len();
    assert(l.subrange(0, m) =~= mark);
    assert(l.subrange(m, b) =~= a.id);
    assert(l.subrange(b, b + 6) =~= " | ep:"@);
    assert(l.subrange(b + 6, c) =~= episodes);
    assert(l.subrange(c, c + 7) =~= " | avg:"@);
    assert(l.subrange(c + 7, d) =~= average);
    assert(l.subrange(d, d + 8) =~= " | best:"@);
    assert(l.subrange(d + 8, l.len() as int) =~= best);
}

} // verus!
