//! The dashboard's screen: what each panel shows and what the keys do.

use crate::dqn_tracker_main::agents::{
    current, optional_view, recent, Agent, AgentRegistry, AgentStatus, AgentView, RegistryView,
};
use crate::dqn_tracker_main::lineage::{
    build_items, family_tree, reward_views, tidy, RewardText,
};
use crate::keys::Key;
use crate::layout::{
    halves, head_size, headed, portion, split, tail_cut, Area, Axis, Share,
};
use crate::scalar::Double;
use crate::text::{decimal, join, joined, number, views};
use crate::tree_widget::{
    all_named_rows, named_down, named_drawn, named_fresh, named_ids, named_last_index, named_left,
    named_navigation, named_opened, named_right, named_selected, named_selection, named_toggled,
    named_up, Navigation,
};
use tui_tree_widget::{TreeItem, TreeState};
use vstd::prelude::*;
use vstd::string::*;

verus! {

/// A curve is thinned out to about this many points.
pub const CURVE_POINTS: usize = 300;

/// How many rows the panel of the selected agent takes.
pub const DETAIL_HEIGHT: u16 = 7;

/// How many rewards the trend line shows.
pub const TREND_LENGTH: usize = 24;

#[derive(Clone, Copy, Debug, PartialEq, Eq, Structural)]
pub enum SpanColor {
    Yellow,
    White,
    Magenta,
    Green,
    Blue,
    Cyan,
    DarkGray,
}

/// A piece of text in one style.
#[derive(Debug)]
pub struct StyledSpan {
    pub text: String,
    pub color: SpanColor,
    pub bold: bool,
}

/// What a [`StyledSpan`] shows.
pub struct SpanView {
    pub text: Seq<char>,
    pub color: SpanColor,
    pub bold: bool,
}

impl View for StyledSpan {
    type V = SpanView;

    open spec fn view(&self) -> SpanView {
        SpanView { text: self.text@, color: self.color, bold: self.bold }
    }
}

pub open spec fn span_views(line: Seq<StyledSpan>) -> Seq<SpanView> {
    line.map_values(|s: StyledSpan| s@)
}

pub open spec fn line_views(lines: Seq<Vec<StyledSpan>>) -> Seq<Seq<SpanView>> {
    lines.map_values(|l: Vec<StyledSpan>| span_views(l@))
}

pub open spec fn plain(text: Seq<char>, color: SpanColor) -> SpanView {
    SpanView { text, color, bold: false }
}

pub open spec fn strong(text: Seq<char>, color: SpanColor) -> SpanView {
    SpanView { text, color, bold: true }
}

fn plain_span(text: &str, color: SpanColor) -> (r: StyledSpan)
    ensures
        r@ == plain(text@, color),
{
    StyledSpan { text: text.to_owned(), color, bold: false }
}

fn strong_span(text: &str, color: SpanColor) -> (r: StyledSpan)
    ensures
        r@ == strong(text@, color),
{
    StyledSpan { text: text.to_owned(), color, bold: true }
}

/// The numbers of the best agent, written out.
#[derive(Debug)]
pub struct BestText {
    pub total: String,
    pub average: String,
    pub best_episode: String,
    pub epsilon: String,
}

/// The numbers of the selected agent, written out.
#[derive(Debug)]
pub struct DetailText {
    pub learning_rate: String,
    pub epsilon: String,
    pub total: String,
}

/// What the detail panel shows.
#[derive(Debug)]
pub enum DetailPanel {
    /// No agent is selected.
    NoneSelected,
    /// There is no agent of the selected name.
    NotFound,
    Lines { title: String, lines: Vec<Vec<StyledSpan>> },
}

/// What the reward panel shows.
#[derive(Debug)]
pub enum RewardChart {
    /// There is nothing to show yet.
    Waiting,
    Curve {
        title: String,
        points: Vec<(usize, Double)>,
        last_episode: usize,
        lowest: Option<Double>,
        highest: Option<Double>,
    },
}

/// What the panel of the sums shows.
#[derive(Debug)]
pub enum SumChart {
    /// There is nothing to show yet.
    Waiting,
    Curves {
        points: Vec<(usize, Double)>,
        last_episode: Option<usize>,
        with_best: bool,
        lowest: Option<Double>,
        highest: Option<Double>,
    },
}

/// Where the panels are.
#[derive(Clone, Copy, Debug, PartialEq, Eq, Structural)]
pub struct Panels {
    pub tree: Area,
    pub best: Area,
    pub detail: Area,
    pub rewards: Area,
    pub sums: Area,
}

/// Every how many points a curve of so many points is sampled.
pub open spec fn stride(len: nat) -> nat {
    if len / CURVE_POINTS as nat >= 1 {
        len / CURVE_POINTS as nat
    } else {
        1
    }
}

/// Every `stride`-th point, from the first.
pub open spec fn sampled<T>(data: Seq<T>) -> Seq<T> {
    Seq::new(
        ((data.len() + stride(data.len()) - 1) / stride(data.len()) as int) as nat,
        |k: int| data[k * stride(data.len())],
    )
}

pub open spec fn heights(points: Seq<(usize, Double)>) -> Seq<Double> {
    points.map_values(|p: (usize, Double)| p.1)
}

pub open spec fn best_heights(points: Seq<(Double, Double)>) -> Seq<Double> {
    points.map_values(|p: (Double, Double)| p.1)
}

/// The character of a trend line at a level.
pub open spec fn trend_char(level: int) -> char {
    if level < 7 {
        (0x2581 + level) as char
    } else {
        '\u{2588}'
    }
}

/// The trend line.
pub open spec fn trend_text(levels: Option<Seq<usize>>) -> Seq<char> {
    match levels {
        Some(levels) => Seq::new(levels.len(), |i: int| trend_char(levels[i] as int)),
        None => "Collecting data..."@,
    }
}

/// The name of the best agent as it is shown.
pub open spec fn best_name(r: RegistryView) -> Seq<char> {
    match r.best_agent_id {
        Some(name) => name,
        None => "None"@,
    }
}

/// Generation of the best agent and the number of its episodes; nothing where
/// there is none.
pub open spec fn best_counts(r: RegistryView) -> (nat, nat) {
    match r.best_agent_id {
        Some(name) => match current(r.agents, name) {
            Some(i) => (r.agents[i].generation as nat, r.agents[i].episodes.len()),
            None => (0, 0),
        },
        None => (0, 0),
    }
}

/// The lines of the best agent's panel.
pub open spec fn best_lines(
    r: RegistryView,
    total: Seq<char>,
    average: Seq<char>,
    best_episode: Seq<char>,
    epsilon: Seq<char>,
    trend: Seq<char>,
) -> Seq<Seq<SpanView>> {
    seq![
        seq![
            strong(" Best Agent: "@, SpanColor::Yellow),
            strong(best_name(r), SpanColor::White),
            plain(
                "  gen:"@ + decimal(best_counts(r).0) + "  e:"@ + epsilon,
                SpanColor::Magenta,
            ),
        ],
        seq![
            plain(" Total Reward: "@, SpanColor::Green),
            plain(total, SpanColor::White),
            plain("  Avg/ep: "@, SpanColor::Green),
            plain(average, SpanColor::White),
        ],
        seq![
            plain(" Best Ep: "@, SpanColor::Blue),
            plain(best_episode, SpanColor::White),
            plain("  Episodes: "@, SpanColor::Blue),
            plain(decimal(best_counts(r).1), SpanColor::White),
        ],
        seq![plain(" Trend: "@, SpanColor::DarkGray), plain(trend, SpanColor::Yellow)],
    ]
}

pub open spec fn status_text(status: AgentStatus) -> (Seq<char>, SpanColor) {
    match status {
        AgentStatus::Training => ("Training"@, SpanColor::Cyan),
        AgentStatus::Finished => ("Finished"@, SpanColor::Green),
        AgentStatus::Best => ("BEST"@, SpanColor::Yellow),
    }
}

/// The lines of the selected agent's panel.
pub open spec fn detail_lines(
    a: AgentView,
    learning_rate: Seq<char>,
    epsilon: Seq<char>,
    total: Seq<char>,
) -> Seq<Seq<SpanView>> {
    let parent = match a.parent {
        Some(name) => name,
        None => "(root)"@,
    };
    let children = if a.children.len() == 0 {
        "none"@
    } else {
        joined(a.children, ", "@)
    };
    seq![
        seq![
            plain(" ID: "@, SpanColor::DarkGray),
            strong(a.id, SpanColor::White),
            plain("  Status: "@, SpanColor::DarkGray),
            strong(status_text(a.status).0, status_text(a.status).1),
            plain("  Gen: "@, SpanColor::DarkGray),
            plain(decimal(a.generation as nat), SpanColor::Magenta),
        ],
        seq![
            plain(" Parent: "@, SpanColor::DarkGray),
            plain(parent, SpanColor::Cyan),
            plain("  Children: "@, SpanColor::DarkGray),
            plain(children, SpanColor::Cyan),
        ],
        seq![
            plain(" LR: "@, SpanColor::DarkGray),
            plain(learning_rate, SpanColor::Green),
            plain("  epsilon: "@, SpanColor::DarkGray),
            plain(epsilon, SpanColor::Green),
            plain("  Episodes: "@, SpanColor::DarkGray),
            plain(decimal(a.episodes.len()), SpanColor::White),
            plain("  Total: "@, SpanColor::DarkGray),
            plain(total, SpanColor::Yellow),
        ],
    ]
}

/// The rewards of the selected agent, by episode; none where there is no agent.
pub open spec fn selected_rewards(r: RegistryView, selected: Option<Seq<char>>) -> Seq<
    (usize, Double),
> {
    match selected {
        Some(name) => match current(r.agents, name) {
            Some(i) => Seq::new(
                r.agents[i].episodes.len(),
                |k: int| (k as usize, r.agents[i].episodes[k]),
            ),
            None => Seq::empty(),
        },
        None => Seq::empty(),
    }
}

/// Ends the program.
pub open spec fn quits(control: bool, key: Key) -> bool {
    key == Key::Char('q') || (key == Key::Char('c') && control)
}

/// What a key does in the tree.
pub open spec fn steer(nav: Navigation<Seq<char>>, key: Key) -> Navigation<Seq<char>> {
    match key {
        Key::Down => nav.down(),
        Key::Up => nav.up(),
        Key::Left => nav.left(),
        Key::Right => nav.right(),
        Key::Enter => nav.toggled(),
        _ => nav,
    }
}

/// The state of the dashboard.
pub struct App {
    /// What is open and selected in the lineage tree.
    pub tree_state: TreeState<String>,
    /// The agent whose details are shown.
    pub selected_id: Option<String>,
}

impl App {
    /// The dashboard as it opens, with the first root selected.
    pub fn new(registry: &AgentRegistry) -> (r: App)
        ensures
            optional_view(r.selected_id) == (if registry@.root_ids.len() == 0 {
                None
            } else {
                Some(registry@.root_ids[0])
            }),
            named_selected(r.tree_state) == Seq::<Seq<char>>::empty(),
            named_opened(r.tree_state) == Set::<Seq<Seq<char>>>::empty(),
            named_drawn(r.tree_state) == Seq::<Seq<Seq<char>>>::empty(),
            named_last_index(r.tree_state) == 0,
    {
        let roots: &Vec<String> = registry.root_ids();
        let selected_id: Option<String> = if roots.len() == 0 {
            None
        } else {
            Some(roots[0].clone())
        };
        App { tree_state: named_fresh(), selected_id }
    }

    /// The lineage of the agents, ready to be drawn; none if an agent has two
    /// children of one name.
    pub fn build_tree_items(&self, registry: &AgentRegistry, texts: &Vec<RewardText>) -> (r: Option<
        Vec<TreeItem<'static, String>>,
    >)
        requires
            texts@.len() == registry@.agents.len(),
        ensures
            r is Some <==> tidy(registry@.agents, -1, registry@.root_ids),
            r matches Some(items) ==> all_named_rows(items@) == family_tree(
                registry@,
                reward_views(texts@),
            ),
            r matches Some(items) ==> named_ids(items@) == registry@.root_ids,
    {
        build_items(registry, texts)
    }

    /// The rewards of the selected agent, by episode.
    pub fn reward_chart_data(&self, registry: &AgentRegistry) -> (r: Vec<(usize, Double)>)
        ensures
            r@ == selected_rewards(registry@, optional_view(self.selected_id)),
    {
        let mut r: Vec<(usize, Double)> = Vec::new();
        let handle: Option<usize> = match &self.selected_id {
            Some(name) => registry.find(name),
            None => None,
        };
        match handle {
            Some(handle) => {
                let a: &Agent = registry.agent(handle);
                let ghost all = selected_rewards(registry@, optional_view(self.selected_id));
                let mut k: usize = 0;
                while k < a.episodes.len()
                    invariant
                        k <= a.episodes@.len(),
                        all.len() == a.episodes@.len(),
                        forall|j: int|
                            0 <= j < all.len() ==> #[trigger] all[j] == (
                            j as usize,
                            a.episodes@[j],
                        ),
                        r@ =~= all.take(k as int),
                    decreases a.episodes@.len() - k,
                {
                    r.push((k, a.episodes[k]));
                    k = k + 1;
                }
                proof {
                    assert(r@ =~= all);
                }
            },
            None => {
                proof {
                    assert(r@ =~= selected_rewards(registry@, optional_view(self.selected_id)));
                }
            },
        }
        r
    }

    /// What the reward panel shows.
    pub fn reward_chart(&self, registry: &AgentRegistry) -> (r: RewardChart)
        ensures
            ({
                let all = selected_rewards(registry@, optional_view(self.selected_id));
                if all.len() == 0 {
                    r is Waiting
                } else {
                    &&& r matches RewardChart::Curve {
                        title,
                        points,
                        last_episode,
                        lowest,
                        highest,
                    }
                    &&& title@ == " Episode Rewards -- "@ + optional_view(self.selected_id)->0
                        + " "@
                    &&& points@ == sampled(all)
                    &&& last_episode == all.len() - 1
                    &&& Double::is_lowest(heights(sampled(all)), lowest)
                    &&& Double::is_highest(heights(sampled(all)), highest)
                }
            }),
    {
        let data: Vec<(usize, Double)> = self.reward_chart_data(registry);
        if data.len() == 0 {
            return RewardChart::Waiting;
        }
        let mut title: String = " Episode Rewards -- ".to_owned();
        match &self.selected_id {
            Some(name) => title.append(name.as_str()),
            None => {},
        }
        title.append(" ");
        let points: Vec<(usize, Double)> = sample(&data);
        let values: Vec<Double> = collect_heights(&points);
        let lowest: Option<Double> = Double::lowest(&values);
        let highest: Option<Double> = Double::highest(&values);
        let last_episode: usize = data[data.len() - 1].0;
        RewardChart::Curve { title, points, last_episode, lowest, highest }
    }

    /// What the detail panel shows.
    pub fn detail_panel(&self, registry: &AgentRegistry, text: &DetailText) -> (r: DetailPanel)
        ensures
            match optional_view(self.selected_id) {
                None => r is NoneSelected,
                Some(name) => match current(registry@.agents, name) {
                    None => r is NotFound,
                    Some(i) => {
                        &&& r matches DetailPanel::Lines { title, lines }
                        &&& title@ == " Agent: "@ + name + " "@
                        &&& line_views(lines@) == detail_lines(
                            registry@.agents[i],
                            text.learning_rate@,
                            text.epsilon@,
                            text.total@,
                        )
                    },
                },
            },
    {
        let name: &String = match &self.selected_id {
            Some(name) => name,
            None => {
                return DetailPanel::NoneSelected;
            },
        };
        let handle: usize = match registry.find(name) {
            Some(handle) => handle,
            None => {
                return DetailPanel::NotFound;
            },
        };
        let a: &Agent = registry.agent(handle);
        let mut title: String = " Agent: ".to_owned();
        title.append(name.as_str());
        title.append(" ");
        DetailPanel::Lines { title, lines: describe(a, text) }
    }

    /// Obeys a key; says whether it ends the program.
    pub fn on_key(&mut self, control: bool, key: Key) -> (quit: bool)
        ensures
            quit == quits(control, key),
            named_navigation(final(self).tree_state) == (if quit {
                named_navigation(old(self).tree_state)
            } else {
                steer(named_navigation(old(self).tree_state), key)
            }),
            optional_view(final(self).selected_id) == (if key == Key::Enter && named_selected(
                old(self).tree_state,
            ).len() > 0 {
                Some(named_selected(old(self).tree_state).last())
            } else {
                optional_view(old(self).selected_id)
            }),
    {
        match key {
            Key::Char(c) => {
                return c == 'q' || (c == 'c' && control);
            },
            Key::Down => {
                named_down(&mut self.tree_state);
            },
            Key::Up => {
                named_up(&mut self.tree_state);
            },
            Key::Left => {
                named_left(&mut self.tree_state);
            },
            Key::Right => {
                named_right(&mut self.tree_state);
            },
            Key::Enter => {
                let path: Vec<String> = named_selection(&self.tree_state);
                if path.len() > 0 {
                    self.selected_id = Some(path[path.len() - 1].clone());
                }
                named_toggled(&mut self.tree_state);
            },
            _ => {},
        }
        false
    }
}

fn describe(a: &Agent, text: &DetailText) -> (r: Vec<Vec<StyledSpan>>)
    ensures
        line_views(r@) == detail_lines(a@, text.learning_rate@, text.epsilon@, text.total@),
{
    let ghost wanted = detail_lines(a@, text.learning_rate@, text.epsilon@, text.total@);
    let (status, status_color) = match a.status {
        AgentStatus::Training => ("Training", SpanColor::Cyan),
        AgentStatus::Finished => ("Finished", SpanColor::Green),
        AgentStatus::Best => ("BEST", SpanColor::Yellow),
    };
    let parent: String = match &a.parent {
        Some(name) => name.clone(),
        None => "(root)".to_owned(),
    };
    let children: String = if a.children.len() == 0 {
        "none".to_owned()
    } else {
        join(&a.children, ", ")
    };
    let mut first: Vec<StyledSpan> = Vec::new();
    first.push(plain_span(" ID: ", SpanColor::DarkGray));
    first.push(strong_span(a.id.as_str(), SpanColor::White));
    first.push(plain_span("  Status: ", SpanColor::DarkGray));
    first.push(strong_span(status, status_color));
    first.push(plain_span("  Gen: ", SpanColor::DarkGray));
    first.push(plain_span(number(a.generation as u64).as_str(), SpanColor::Magenta));
    proof {
        assert(span_views(first@) =~= wanted[0]);
    }
    let mut second: Vec<StyledSpan> = Vec::new();
    second.push(plain_span(" Parent: ", SpanColor::DarkGray));
    second.push(plain_span(parent.as_str(), SpanColor::Cyan));
    second.push(plain_span("  Children: ", SpanColor::DarkGray));
    second.push(plain_span(children.as_str(), SpanColor::Cyan));
    proof {
        assert(span_views(second@) =~= wanted[1]);
    }
    let mut third: Vec<StyledSpan> = Vec::new();
    third.push(plain_span(" LR: ", SpanColor::DarkGray));
    third.push(plain_span(text.learning_rate.as_str(), SpanColor::Green));
    third.push(plain_span("  epsilon: ", SpanColor::DarkGray));
    third.push(plain_span(text.epsilon.as_str(), SpanColor::Green));
    third.push(plain_span("  Episodes: ", SpanColor::DarkGray));
    third.push(plain_span(number(a.episodes.len() as u64).as_str(), SpanColor::White));
    third.push(plain_span("  Total: ", SpanColor::DarkGray));
    third.push(plain_span(text.total.as_str(), SpanColor::Yellow));
    proof {
        assert(span_views(third@) =~= wanted[2]);
    }
    let mut r: Vec<Vec<StyledSpan>> = Vec::new();
    r.push(first);
    r.push(second);
    r.push(third);
    proof {
        assert(line_views(r@) =~= wanted);
    }
    r
}

/// The lines of the best agent's panel.
pub fn best_panel(registry: &AgentRegistry, text: &BestText, trend: &String) -> (r: Vec<
    Vec<StyledSpan>,
>)
    ensures
        line_views(r@) == best_lines(
            registry@,
            text.total@,
            text.average@,
            text.best_episode@,
            text.epsilon@,
            trend@,
        ),
{
    let ghost wanted = best_lines(
        registry@,
        text.total@,
        text.average@,
        text.best_episode@,
        text.epsilon@,
        trend@,
    );
    let name: String = match registry.best_agent_id() {
        Some(name) => name.clone(),
        None => "None".to_owned(),
    };
    let handle: Option<usize> = match registry.best_agent_id() {
        Some(name) => registry.find(name),
        None => None,
    };
    let (generation, episodes): (u64, u64) = match handle {
        Some(handle) => (
            registry.agent(handle).generation as u64,
            registry.agent(handle).episodes.len() as u64,
        ),
        None => (0, 0),
    };
    let mut counts: String = "  gen:".to_owned();
    counts.append(number(generation).as_str());
    counts.append("  e:");
    counts.append(text.epsilon.as_str());
    let mut first: Vec<StyledSpan> = Vec::new();
    first.push(strong_span(" Best Agent: ", SpanColor::Yellow));
    first.push(strong_span(name.as_str(), SpanColor::White));
    first.push(plain_span(counts.as_str(), SpanColor::Magenta));
    proof {
        assert(span_views(first@) =~= wanted[0]);
    }
    let mut second: Vec<StyledSpan> = Vec::new();
    second.push(plain_span(" Total Reward: ", SpanColor::Green));
    second.push(plain_span(text.total.as_str(), SpanColor::White));
    second.push(plain_span("  Avg/ep: ", SpanColor::Green));
    second.push(plain_span(text.average.as_str(), SpanColor::White));
    proof {
        assert(span_views(second@) =~= wanted[1]);
    }
    let mut third: Vec<StyledSpan> = Vec::new();
    third.push(plain_span(" Best Ep: ", SpanColor::Blue));
    third.push(plain_span(text.best_episode.as_str(), SpanColor::White));
    third.push(plain_span("  Episodes: ", SpanColor::Blue));
    third.push(plain_span(number(episodes).as_str(), SpanColor::White));
    proof {
        assert(span_views(third@) =~= wanted[2]);
    }
    let mut fourth: Vec<StyledSpan> = Vec::new();
    fourth.push(plain_span(" Trend: ", SpanColor::DarkGray));
    fourth.push(plain_span(trend.as_str(), SpanColor::Yellow));
    proof {
        assert(span_views(fourth@) =~= wanted[3]);
    }
    let mut r: Vec<Vec<StyledSpan>> = Vec::new();
    r.push(first);
    r.push(second);
    r.push(third);
    r.push(fourth);
    proof {
        assert(line_views(r@) =~= wanted);
    }
    r
}

/// The rewards that the trend line shows; none as long as there are too few.
pub fn trend_rewards(registry: &AgentRegistry) -> (r: Option<Vec<Double>>)
    ensures
        registry@.best_rewards.len() < 2 <==> r is None,
        r matches Some(rewards) ==> rewards@ == best_heights(
            recent(registry@.best_rewards, TREND_LENGTH as int),
        ),
        r matches Some(rewards) ==> {
            let all = registry@.best_rewards;
            let n = rewards@.len();
            &&& n == (if all.len() < 24 {
                all.len()
            } else {
                24
            })
            &&& forall|k: int|
                0 <= k < n ==> #[trigger] rewards@[k] == all[all.len() - n + k].1
        },
{
    let all: &Vec<(Double, Double)> = registry.best_rewards();
    if all.len() < 2 {
        return None;
    }
    let start: usize = if all.len() <= TREND_LENGTH {
        0
    } else {
        all.len() - TREND_LENGTH
    };
    let ghost kept = recent(all@, TREND_LENGTH as int);
    let mut r: Vec<Double> = Vec::new();
    let mut i: usize = start;
    while i < all.len()
        invariant
            start <= i <= all@.len(),
            start == all@.len() - kept.len(),
            forall|k: int| 0 <= k < kept.len() ==> #[trigger] kept[k] == all@[start + k],
            r@ =~= best_heights(kept).take(i - start),
        decreases all@.len() - i,
    {
        proof {
            assert(kept[i - start] == all@[i as int]);
        }
        r.push(all[i].1);
        i = i + 1;
    }
    proof {
        assert(r@ =~= best_heights(kept));
    }
    Some(r)
}

/// Draws the trend line.
pub fn trend(levels: &Option<Vec<usize>>) -> (r: String)
    ensures
        r@ == trend_text(
            match levels {
                Some(v) => Some(v@),
                None => None,
            },
        ),
{
    let levels: &Vec<usize> = match levels {
        Some(levels) => levels,
        None => {
            return "Collecting data...".to_owned();
        },
    };
    proof {
        reveal_strlit("\u{2581}");
        reveal_strlit("\u{2582}");
        reveal_strlit("\u{2583}");
        reveal_strlit("\u{2584}");
        reveal_strlit("\u{2585}");
        reveal_strlit("\u{2586}");
        reveal_strlit("\u{2587}");
        reveal_strlit("\u{2588}");
    }
    let mut r: String = String::new();
    let mut i: usize = 0;
    while i < levels.len()
        invariant
            i <= levels@.len(),
            r@ =~= trend_text(Some(levels@)).take(i as int),
            "\u{2581}"@ == seq!['\u{2581}'],
            "\u{2582}"@ == seq!['\u{2582}'],
            "\u{2583}"@ == seq!['\u{2583}'],
            "\u{2584}"@ == seq!['\u{2584}'],
            "\u{2585}"@ == seq!['\u{2585}'],
            "\u{2586}"@ == seq!['\u{2586}'],
            "\u{2587}"@ == seq!['\u{2587}'],
            "\u{2588}"@ == seq!['\u{2588}'],
        decreases levels@.len() - i,
    {
        let bar: &str = match levels[i] {
            0 => "\u{2581}",
            1 => "\u{2582}",
            2 => "\u{2583}",
            3 => "\u{2584}",
            4 => "\u{2585}",
            5 => "\u{2586}",
            6 => "\u{2587}",
            _ => "\u{2588}",
        };
        proof {
            assert(bar@ == seq![trend_char(levels@[i as int] as int)]);
        }
        r.append(bar);
        i = i + 1;
    }
    proof {
        assert(r@ =~= trend_text(Some(levels@)));
    }
    r
}

/// Thins out a curve.
pub fn sample(data: &Vec<(usize, Double)>) -> (r: Vec<(usize, Double)>)
    ensures
        r@ == sampled(data@),
{
    let mut r: Vec<(usize, Double)> = Vec::new();
    let len: usize = data.len();
    let step: usize = if len / CURVE_POINTS >= 1 {
        len / CURVE_POINTS
    } else {
        1
    };
    if len == 0 {
        proof {
            assert(r@ =~= sampled(data@));
        }
        return r;
    }
    let count: usize = (len - 1) / step + 1;
    proof {
        assert((len - 1) / step as int + 1 == (len + step - 1) / step as int) by (nonlinear_arith)
            requires
                len >= 1,
                step >= 1,
        ;
    }
    let mut k: usize = 0;
    while k < count
        invariant
            k <= count,
            len == data@.len(),
            len >= 1,
            step >= 1,
            step == stride(data@.len()),
            count == (len - 1) / step as int + 1,
            count == sampled(data@).len(),
            r@ =~= sampled(data@).take(k as int),
        decreases count - k,
    {
        proof {
            assert(0 <= k * step <= len - 1) by (nonlinear_arith)
                requires
                    0 <= k,
                    k <= (len - 1) / step as int,
                    len >= 1,
                    step >= 1,
            ;
        }
        r.push(data[k * step]);
        k = k + 1;
    }
    proof {
        assert(r@ =~= sampled(data@));
    }
    r
}

fn collect_heights(points: &Vec<(usize, Double)>) -> (r: Vec<Double>)
    ensures
        r@ == heights(points@),
{
    let mut r: Vec<Double> = Vec::new();
    let mut i: usize = 0;
    while i < points.len()
        invariant
            i <= points@.len(),
            r@ =~= heights(points@).take(i as int),
        decreases points@.len() - i,
    {
        r.push(points[i].1);
        i = i + 1;
    }
    proof {
        assert(r@ =~= heights(points@));
    }
    r
}

/// What the panel of the sums shows, given the running sums of the selected
/// agent's rewards.
pub fn sum_chart(registry: &AgentRegistry, sums: &Vec<(usize, Double)>) -> (r: SumChart)
    ensures
        ({
            let best = registry@.best_rewards;
            if sums@.len() == 0 && best.len() == 0 {
                r is Waiting
            } else {
                let all = heights(sampled(sums@)) + best_heights(best);
                &&& r matches SumChart::Curves {
                    points,
                    last_episode,
                    with_best,
                    lowest,
                    highest,
                }
                &&& points@ == sampled(sums@)
                &&& last_episode == (if sums@.len() == 0 {
                    None
                } else {
                    Some(sums@.last().0)
                })
                &&& with_best == (best.len() > 0)
                &&& Double::is_lowest(all, lowest)
                &&& Double::is_highest(all, highest)
            }
        }),
{
    let best: &Vec<(Double, Double)> = registry.best_rewards();
    if sums.len() == 0 && best.len() == 0 {
        return SumChart::Waiting;
    }
    let points: Vec<(usize, Double)> = sample(sums);
    let last_episode: Option<usize> = if sums.len() == 0 {
        None
    } else {
        Some(sums[sums.len() - 1].0)
    };
    let mut values: Vec<Double> = collect_heights(&points);
    let ghost front = values@;
    let mut i: usize = 0;
    while i < best.len()
        invariant
            i <= best@.len(),
            values@ =~= front + best_heights(best@).take(i as int),
        decreases best@.len() - i,
    {
        values.push(best[i].1);
        i = i + 1;
    }
    proof {
        assert(best_heights(best@).take(i as int) =~= best_heights(best@));
    }
    let lowest: Option<Double> = Double::lowest(&values);
    let highest: Option<Double> = Double::highest(&values);
    let with_best: bool = best.len() > 0;
    SumChart::Curves { points, last_episode, with_best, lowest, highest }
}

/// Divides the screen: tree and best agent on the left, the selected agent on
/// the right.
pub fn panels(area: Area) -> (r: Panels)
    ensures
        area.encloses(r.tree),
        area.encloses(r.best),
        area.encloses(r.detail),
        area.encloses(r.rewards),
        area.encloses(r.sums),
        area.fits() ==> {
            let column = portion(area.x as int, area.width as int, 35);
            let row = portion(area.y as int, area.height as int, 65);
            let right = area.x + area.width;
            let bottom = area.y + area.height;
            let head = area.y + head_size(area.height as int, DETAIL_HEIGHT as int);
            let cut = tail_cut(area.y as int, area.height as int, DETAIL_HEIGHT as int);
            &&& r.tree.spans(area.x as int, area.y as int, column, row)
            &&& r.best.spans(area.x as int, row, column, bottom)
            &&& r.detail.spans(column, area.y as int, right, head)
            &&& r.rewards.spans(column, head, right, cut)
            &&& r.sums.spans(column, cut, right, bottom)
            &&& r.detail.height == (if area.height < 7 {
                area.height
            } else {
                7
            })
            &&& r.detail.height + r.rewards.height + r.sums.height == area.height
            &&& r.sums.height <= r.rewards.height <= r.sums.height + 1
        },
{
    let (left, right) = halves(Axis::Horizontal, 35, area);
    let (tree, best) = halves(Axis::Vertical, 65, left);
    let mut shares: Vec<Share> = Vec::new();
    shares.push(Share::Length(DETAIL_HEIGHT));
    shares.push(Share::Percentage(50));
    shares.push(Share::Percentage(50));
    let parts: Vec<Area> = split(Axis::Vertical, &shares, right);
    proof {
        assert(headed(shares@));
        assert(right.slice(parts@[0], Axis::Vertical));
        assert(right.slice(parts@[1], Axis::Vertical));
        assert(right.slice(parts@[2], Axis::Vertical));
    }
    Panels { tree, best, detail: parts[0], rewards: parts[1], sums: parts[2] }
}

/// A curve is never drawn with 600 points or more, and it starts where it should.
pub proof fn law_curves_are_thinned_out(data: Seq<(usize, Double)>)
    ensures
        sampled(data).len() < 2 * CURVE_POINTS,
        data.len() > 0 ==> sampled(data).len() > 0 && sampled(data)[0] == data[0],
{
    let len = data.len() as int;
    let step = stride(data.len()) as int;
    assert((len + step - 1) / step < 600) by (nonlinear_arith)
        requires
            0 <= len,
            step >= 1,
            len < 300 * (step + 1),
            step == 1 ==> len < 600,
    ;
    if len > 0 {
        assert((len + step - 1) / step >= 1) by (nonlinear_arith)
            requires
                len >= 1,
                step >= 1,
        ;
    }
}

/// A thinned-out curve takes points at even distances, from the first up to the end: a
/// curve of fewer than 600 points is taken whole, and a longer one so that between 300
/// and 599 points are left.
pub proof fn law_curves_are_spread_evenly<T>(data: Seq<T>, k: int)
    ensures
        data.len() < 600 ==> sampled(data) == data,
        data.len() >= 300 ==> 300 <= sampled(data).len() < 600,
        exists|step: int|
            #![trigger step * sampled(data).len()]
            {
                &&& step >= 1
                &&& step * sampled(data).len() >= data.len()
                &&& step * sampled(data).len() < data.len() + step
                &&& 0 <= k < sampled(data).len() ==> 0 <= k * step < data.len() && sampled(data)[k]
                    == data[k * step]
            },
{
    let len = data.len() as int;
    let step = stride(data.len()) as int;
    let n = sampled(data).len() as int;
    assert(n * step >= len && n * step < len + step) by (nonlinear_arith)
        requires
            step >= 1,
            len >= 0,
            n == (len + step - 1) / step,
    ;
    assert(step * n == n * step) by (nonlinear_arith);
    if 0 <= k < n {
        assert(0 <= k * step < len) by (nonlinear_arith)
            requires
                0 <= k <= n - 1,
                step >= 1,
                n * step < len + step,
        ;
    }
    if len < 600 {
        assert(step == 1);
        assert(sampled(data) =~= data);
    }
    if len >= 300 {
        assert(step == len / 300);
        assert(300 <= n) by (nonlinear_arith)
            requires
                step >= 1,
                300 * step <= len,
                n * step >= len,
        ;
        assert(n < 600) by (nonlinear_arith)
            requires
                step >= 1,
                len < 300 * (step + 1),
                n * step < len + step,
                step == 1 ==> n < 600,
        ;
    }
    assert(step * sampled(data).len() >= data.len());
}

/// The heights of some points are their second numbers, in the same order.
pub proof fn law_heights_are_the_second_numbers(
    points: Seq<(usize, Double)>,
    best: Seq<(Double, Double)>,
    k: int,
)
    ensures
        heights(points).len() == points.len(),
        best_heights(best).len() == best.len(),
        0 <= k < points.len() ==> heights(points)[k] == points[k].1,
        0 <= k < best.len() ==> best_heights(best)[k] == best[k].1,
{
}

/// A trend line has a character for each level, a block that is the higher the higher
/// the level is; the eighth is the full one, and nothing is higher.
pub proof fn law_trends_rise_with_their_levels(levels: Seq<usize>, k: int)
    requires
        0 <= k < levels.len(),
    ensures
        trend_text(Some(levels)).len() == levels.len(),
        levels[k] <= 7 ==> trend_text(Some(levels))[k] as int == 0x2581 + levels[k],
        levels[k] > 7 ==> trend_text(Some(levels))[k] as int == 0x2588,
        trend_text(None) == "Collecting data..."@,
{
}

/// What is shown of the best agent is that of the agent that its name means.
pub proof fn law_the_best_agent_is_shown(r: RegistryView, k: int)
    requires
        0 <= k < r.agents.len(),
    ensures
        r.best_agent_id matches Some(name) ==> {
            &&& best_name(r) == name
            &&& current(r.agents, name) == Some(k) ==> best_counts(r).0 == r.agents[k].generation
                && best_counts(r).1 == r.agents[k].episodes.len()
            &&& current(r.agents, name) is None ==> best_counts(r) == (0nat, 0nat)
        },
        r.best_agent_id is None ==> best_name(r) == "None"@ && best_counts(r) == (0nat, 0nat),
{
}

/// The rewards that are charted are those of the selected agent, by the number of
/// their episode, counted from zero; none without such an agent.
pub proof fn law_the_selected_agent_is_charted(
    r: RegistryView,
    selected: Option<Seq<char>>,
    i: int,
    k: int,
)
    requires
        0 <= i < r.agents.len(),
        r.agents[i].episodes.len() <= usize::MAX,
    ensures
        ({
            let chart = selected_rewards(r, selected);
            &&& selected is None ==> chart.len() == 0
            &&& selected matches Some(name) ==> {
                &&& current(r.agents, name) is None ==> chart.len() == 0
                &&& current(r.agents, name) == Some(i) ==> {
                    &&& chart.len() == r.agents[i].episodes.len()
                    &&& 0 <= k < chart.len() ==> chart[k].0 == k && chart[k].1
                        == r.agents[i].episodes[k]
                }
            }
        }),
{
}

/// The details of an agent are its own, each in its place.
pub proof fn law_details_are_the_agents(
    a: AgentView,
    learning_rate: Seq<char>,
    epsilon: Seq<char>,
    total: Seq<char>,
)
    ensures
        ({
            let lines = detail_lines(a, learning_rate, epsilon, total);
            &&& lines.len() == 3
            &&& lines[0].len() == 6 && lines[1].len() == 4 && lines[2].len() == 8
            &&& lines[0][1].text == a.id
            &&& a.status == AgentStatus::Training ==> lines[0][3].text == "Training"@
            &&& a.status == AgentStatus::Finished ==> lines[0][3].text == "Finished"@
            &&& a.status == AgentStatus::Best ==> lines[0][3].text == "BEST"@
            &&& lines[0][5].text == decimal(a.generation as nat)
            &&& a.parent is Some ==> a.parent == Some(lines[1][1].text)
            &&& a.parent is None ==> lines[1][1].text == "(root)"@
            &&& a.children.len() == 0 ==> lines[1][3].text == "none"@
            &&& a.children.len() > 0 ==> lines[1][3].text == joined(a.children, ", "@)
            &&& lines[2][1].text == learning_rate
            &&& lines[2][3].text == epsilon
            &&& lines[2][5].text == decimal(a.episodes.len())
            &&& lines[2][7].text == total
        }),
{
}

/// The details of the best agent are its own, each in its place.
pub proof fn law_best_details_are_the_best_agents(
    r: RegistryView,
    total: Seq<char>,
    average: Seq<char>,
    best_episode: Seq<char>,
    epsilon: Seq<char>,
    trend: Seq<char>,
)
    ensures
        ({
            let lines = best_lines(r, total, average, best_episode, epsilon, trend);
            &&& lines.len() == 4
            &&& lines[0].len() == 3 && lines[1].len() == 4 && lines[2].len() == 4 && lines[3].len()
                == 2
            &&& lines[0][1].text == best_name(r)
            &&& lines[0][2].text == "  gen:"@ + decimal(best_counts(r).0) + "  e:"@ + epsilon
            &&& lines[1][1].text == total
            &&& lines[1][3].text == average
            &&& lines[2][1].text == best_episode
            &&& lines[2][3].text == decimal(best_counts(r).1)
            &&& lines[3][1].text == trend
        }),
{
}

/// The keys of the tree: the arrows move, Enter opens and closes, and no other key
/// does anything.  Only `q`, and `c` together with the control key, end the program.
pub proof fn law_what_keys_do(nav: Navigation<Seq<char>>, control: bool, key: Key, c: char)
    ensures
        steer(nav, Key::Down) == nav.down(),
        steer(nav, Key::Up) == nav.up(),
        steer(nav, Key::Left) == nav.left(),
        steer(nav, Key::Right) == nav.right(),
        steer(nav, Key::Enter) == nav.toggled(),
        steer(nav, Key::Char(c)) == nav,
        steer(nav, Key::Esc) == nav,
        steer(nav, Key::Other) == nav,
        quits(control, Key::Char('q')),
        quits(true, Key::Char('c')),
        !quits(false, Key::Char('c')),
        quits(control, key) ==> key == Key::Char('q') || key == Key::Char('c'),
{
}

/// Captions of the details are dark gray, names and states stand out, and every kind
/// of value has a color of its own; so has each state.
pub proof fn law_colors_of_the_details(
    a: AgentView,
    learning_rate: Seq<char>,
    epsilon: Seq<char>,
    total: Seq<char>,
    i: int,
    k: int,
)
    requires
        0 <= i < 3,
        0 <= k < detail_lines(a, learning_rate, epsilon, total)[i].len(),
    ensures
        ({
            let lines = detail_lines(a, learning_rate, epsilon, total);
            &&& k % 2 == 0 ==> lines[i][k].color == SpanColor::DarkGray && !lines[i][k].bold
            &&& lines[i][k].bold <==> i == 0 && (k == 1 || k == 3)
            &&& lines[0][1].color == SpanColor::White
            &&& a.status == AgentStatus::Training ==> lines[0][3].color == SpanColor::Cyan
            &&& a.status == AgentStatus::Finished ==> lines[0][3].color == SpanColor::Green
            &&& a.status == AgentStatus::Best ==> lines[0][3].color == SpanColor::Yellow
            &&& lines[0][5].color == SpanColor::Magenta
            &&& lines[1][1].color == SpanColor::Cyan
            &&& lines[1][3].color == SpanColor::Cyan
            &&& lines[2][1].color == SpanColor::Green
            &&& lines[2][3].color == SpanColor::Green
            &&& lines[2][5].color == SpanColor::White
            &&& lines[2][7].color == SpanColor::Yellow
            &&& lines[0][0].text == " ID: "@
            &&& lines[0][2].text == "  Status: "@
            &&& lines[0][4].text == "  Gen: "@
            &&& lines[1][0].text == " Parent: "@
            &&& lines[1][2].text == "  Children: "@
            &&& lines[2][0].text == " LR: "@
            &&& lines[2][2].text == "  epsilon: "@
            &&& lines[2][4].text == "  Episodes: "@
            &&& lines[2][6].text == "  Total: "@
        }),
{
    let line = detail_lines(a, learning_rate, epsilon, total)[i];
    assert(k == 0 || k == 1 || k == 2 || k == 3 || k == 4 || k == 5 || k == 6 || k == 7);
    assert(i == 0 || i == 1 || i == 2);
}

/// The best agent's name stands out; its captions have the colors of their lines, and
/// the values are white.
pub proof fn law_colors_of_the_best(
    r: RegistryView,
    total: Seq<char>,
    average: Seq<char>,
    best_episode: Seq<char>,
    epsilon: Seq<char>,
    trend: Seq<char>,
)
    ensures
        ({
            let lines = best_lines(r, total, average, best_episode, epsilon, trend);
            &&& lines[0][0].bold && lines[0][1].bold && !lines[0][2].bold
            &&& lines[0][0].color == SpanColor::Yellow
            &&& lines[0][1].color == SpanColor::White
            &&& lines[0][2].color == SpanColor::Magenta
            &&& lines[1][0].color == SpanColor::Green && lines[1][2].color == SpanColor::Green
            &&& lines[2][0].color == SpanColor::Blue && lines[2][2].color == SpanColor::Blue
            &&& lines[1][1].color == SpanColor::White && lines[1][3].color == SpanColor::White
            &&& lines[2][1].color == SpanColor::White && lines[2][3].color == SpanColor::White
            &&& lines[3][0].color == SpanColor::DarkGray && lines[3][1].color == SpanColor::Yellow
            &&& !lines[1][0].bold && !lines[1][1].bold && !lines[1][2].bold && !lines[1][3].bold
            &&& !lines[2][0].bold && !lines[2][1].bold && !lines[2][2].bold && !lines[2][3].bold
            &&& !lines[3][0].bold && !lines[3][1].bold
            &&& lines[0][0].text == " Best Agent: "@
            &&& lines[1][0].text == " Total Reward: "@
            &&& lines[1][2].text == "  Avg/ep: "@
            &&& lines[2][0].text == " Best Ep: "@
            &&& lines[2][2].text == "  Episodes: "@
            &&& lines[3][0].text == " Trend: "@
        }),
{
}

} // verus!
