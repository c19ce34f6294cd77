//! The tracker's screen: what each panel shows and what the keys do.

use crate::dqn_tracker::lineage::{build_items, lineage, metric_views, top_ids, MetricText};
use crate::dqn_tracker::registry::{
    distinct_ids, entry_views, AgentLifecycle, AgentRegistry, EpisodeRecord, RegistryEntry,
};
use crate::keys::Key;
use crate::layout::{halves, portion, Area, Axis};
use crate::order::{
    in_order, lemma_in_order, lemma_where_true, lemma_where_true_step, position_order, positions,
    sort_positions, where_true,
};
use crate::scalar::Single;
use crate::text::lex_le;
use crate::tree_widget::{
    all_numbered_rows, numbered_down, numbered_drawn, numbered_fresh, numbered_ids,
    numbered_last_index, numbered_left, numbered_navigation, numbered_opened, numbered_right,
    numbered_selected, numbered_selection, numbered_toggled, numbered_up, Navigation,
};
use tui_tree_widget::{TreeItem, TreeState};
use vstd::prelude::*;
use vstd::string::*;
use vstd::utf8::{
    decode_utf8_split, encode_scalar, encode_utf8, encode_utf8_decode_utf8,
    encode_utf8_first_scalar, encode_utf8_valid_utf8,
    is_char_boundary, is_char_boundary_start_end_of_seq, pop_first_scalar, valid_utf8_split,
};

verus! {

/// Age, in nanoseconds, beyond which a snapshot is stale.
pub const STALE_NANOS: u128 = 200_000_000;

/// How many bytes of a name fit under a bar.
pub const NAME_BYTES: usize = 8;

/// The state of the tracker's screen.
pub struct App {
    /// What is open and selected in the lineage tree.
    pub tree_state: TreeState<u64>,
    /// The agent whose reward history is shown.
    pub selected_agent_id: Option<u64>,
    /// The agents as of the last refresh.
    pub snapshot: Vec<RegistryEntry>,
}

/// The colors of the bars, in turn.
#[derive(Clone, Copy, Debug, PartialEq, Eq, Structural)]
pub enum BarColor {
    Green,
    Yellow,
    Cyan,
    Magenta,
    LightBlue,
    LightRed,
}

/// The color of the bar at a place.
pub open spec fn bar_color(place: int) -> BarColor {
    let turn = place % 6;
    if turn == 0 {
        BarColor::Green
    } else if turn == 1 {
        BarColor::Yellow
    } else if turn == 2 {
        BarColor::Cyan
    } else if turn == 3 {
        BarColor::Magenta
    } else if turn == 4 {
        BarColor::LightBlue
    } else {
        BarColor::LightRed
    }
}

/// One living agent in the entropy panel.
#[derive(Debug)]
pub struct Bar {
    pub name: String,
    /// The beginning of the name, for the axis.
    pub short_name: String,
    pub entropy: Single,
    pub color: BarColor,
}

/// What the entropy panel shows.
#[derive(Debug)]
pub enum EntropyPanel {
    /// There are no living agents.
    Nobody,
    /// A bar for each living agent, and the highest entropy of all, if any
    /// is a number.
    Bars { bars: Vec<Bar>, highest: Option<Single> },
}

/// What the reward panel shows.
#[derive(Debug)]
pub enum RewardPanel {
    /// No agent is selected.
    Unselected,
    /// The selected agent has not finished an episode; says so.
    NoEpisodes { message: String },
    /// The rewards of the selected agent over its episodes.
    Curve {
        label: String,
        title: String,
        points: Vec<(u64, Single)>,
        first_episode: u64,
        last_episode: u64,
        lowest: Option<Single>,
        highest: Option<Single>,
    },
}

/// Where the panels are.
#[derive(Clone, Copy, Debug, PartialEq, Eq, Structural)]
pub struct Panels {
    pub tree: Area,
    pub entropy: Area,
    pub reward: Area,
}

/// Whether an entry belongs to a living agent.
pub open spec fn alive(entries: Seq<RegistryEntry>) -> spec_fn(int) -> bool {
    |i: int| entries[i].lifecycle == AgentLifecycle::Alive
}

pub open spec fn labels(entries: Seq<RegistryEntry>) -> Seq<String> {
    entries.map_values(|e: RegistryEntry| e.label)
}

/// Where the living agents stand in the list, in the order of their labels.
pub open spec fn living(entries: Seq<RegistryEntry>) -> Seq<int> {
    in_order(labels(entries), where_true(entries.len(), alive(entries)))
}

/// The first place in the list that holds an agent.
pub open spec fn place_of(entries: Seq<RegistryEntry>, id: u64) -> Option<int>
    decreases entries.len(),
{
    if entries.len() == 0 {
        None
    } else if place_of(entries.drop_last(), id) is Some {
        place_of(entries.drop_last(), id)
    } else if entries.last().agent_id == id {
        Some(entries.len() - 1)
    } else {
        None
    }
}

/// The rewards of an agent, by episode.
pub open spec fn reward_points(history: Seq<EpisodeRecord>) -> Seq<(u64, Single)> {
    history.map_values(|r: EpisodeRecord| (r.episode_idx, r.total_reward))
}

pub open spec fn rewards_of(points: Seq<(u64, Single)>) -> Seq<Single> {
    points.map_values(|p: (u64, Single)| p.1)
}

/// The last place up to `limit` that is between two characters.
pub open spec fn boundary_before(bytes: Seq<u8>, limit: int) -> int
    decreases limit,
{
    if limit <= 0 {
        0
    } else if is_char_boundary(bytes, limit) {
        limit
    } else {
        boundary_before(bytes, limit - 1)
    }
}

/// Where a name is cut to fit under its bar: no character is torn apart.
pub open spec fn name_cut(name: Seq<char>) -> int {
    let bytes = encode_utf8(name);
    if bytes.len() < NAME_BYTES {
        bytes.len() as int
    } else {
        boundary_before(bytes, NAME_BYTES as int)
    }
}

/// The beginning of a name that fits under its bar.
pub open spec fn shortened(name: Seq<char>, short: Seq<char>) -> bool {
    &&& short.is_prefix_of(name)
    &&& encode_utf8(short) == encode_utf8(name).take(name_cut(name))
}

/// Ends the program.
pub open spec fn quits(key: Key) -> bool {
    key == Key::Char('q') || key == Key::Esc
}

/// What a key does in the tree.
pub open spec fn steer(nav: Navigation<u64>, key: Key) -> Option<Navigation<u64>> {
    if key == Key::Down || key == Key::Char('j') {
        Some(nav.down())
    } else if key == Key::Up || key == Key::Char('k') {
        Some(nav.up())
    } else if key == Key::Left || key == Key::Char('h') {
        Some(nav.left())
    } else if key == Key::Right || key == Key::Char('l') {
        Some(nav.right())
    } else if key == Key::Enter || key == Key::Char(' ') {
        Some(nav.toggled())
    } else {
        None
    }
}

/// The node that a path leads to.
pub open spec fn end_of(path: Seq<u64>) -> Option<u64> {
    if path.len() == 0 {
        None
    } else {
        Some(path.last())
    }
}

proof fn lemma_place_of(entries: Seq<RegistryEntry>, id: u64, n: int)
    requires
        0 <= n <= entries.len(),
    ensures
        place_of(entries, id) == (if place_of(entries.take(n), id) is Some {
            place_of(entries.take(n), id)
        } else {
            place_of(entries, id)
        }),
    decreases entries.len() - n,
{
    if n < entries.len() {
        lemma_place_of(entries, id, n + 1);
        assert(entries.take(n + 1).drop_last() =~= entries.take(n));
    } else {
        assert(entries.take(n) =~= entries);
    }
}

/// The first entry of an agent is the one that is found.
pub proof fn law_the_first_entry_is_found(entries: Seq<RegistryEntry>, id: u64)
    ensures
        match place_of(entries, id) {
            Some(i) => {
                &&& 0 <= i < entries.len()
                &&& entries[i].agent_id == id
                &&& forall|k: int| 0 <= k < i ==> (#[trigger] entries[k]).agent_id != id
            },
            None => forall|k: int|
                0 <= k < entries.len() ==> (#[trigger] entries[k]).agent_id != id,
        },
    decreases entries.len(),
{
    if entries.len() > 0 {
        let rest = entries.drop_last();
        law_the_first_entry_is_found(rest, id);
        assert forall|k: int| 0 <= k < rest.len() implies (#[trigger] entries[k]).agent_id
            == rest[k].agent_id by {}
    }
}

impl App {
    /// The screen as it opens: everything closed, nothing selected.
    pub fn new(registry: &AgentRegistry) -> (r: App)
        ensures
            registry@.listed(entry_views(r.snapshot@)),
            r.selected_agent_id is None,
            numbered_selected(r.tree_state) == Seq::<u64>::empty(),
            numbered_opened(r.tree_state) == Set::<Seq<u64>>::empty(),
            numbered_drawn(r.tree_state) == Seq::<Seq<u64>>::empty(),
            numbered_last_index(r.tree_state) == 0,
    {
        App {
            tree_state: numbered_fresh(),
            selected_agent_id: None,
            snapshot: registry.snapshot(),
        }
    }

    /// Takes a new snapshot if the last one is stale; says whether it did.
    pub fn refresh_if_stale(&mut self, age_nanos: u128, registry: &AgentRegistry) -> (r: bool)
        ensures
            r == (age_nanos > STALE_NANOS),
            r <==> age_nanos > 200_000_000,
            r ==> registry@.listed(entry_views(final(self).snapshot@)),
            !r ==> final(self).snapshot == old(self).snapshot,
            final(self).selected_agent_id == old(self).selected_agent_id,
            final(self).tree_state == old(self).tree_state,
    {
        if age_nanos > STALE_NANOS {
            self.snapshot = registry.snapshot();
            true
        } else {
            false
        }
    }

    /// The lineage of the agents, ready to be drawn.
    pub fn build_tree_items(&self, texts: &Vec<MetricText>) -> (r: Vec<TreeItem<'static, u64>>)
        requires
            distinct_ids(entry_views(self.snapshot@)),
            texts@.len() == self.snapshot@.len(),
        ensures
            all_numbered_rows(r@) == lineage(entry_views(self.snapshot@), metric_views(texts@)),
            numbered_ids(r@) == top_ids(entry_views(self.snapshot@)),
            numbered_ids(r@).no_duplicates(),
    {
        build_items(&self.snapshot, texts)
    }

    /// Where the living agents stand in the snapshot, by label.
    fn find_living(&self) -> (r: Vec<usize>)
        ensures
            positions(r@) == living(self.snapshot@),
            forall|k: int| 0 <= k < r@.len() ==> #[trigger] r@[k] < self.snapshot@.len(),
    {
        let ghost entries = self.snapshot@;
        let ghost keep = alive(entries);
        let mut names: Vec<String> = Vec::new();
        let mut kept: Vec<usize> = Vec::new();
        let mut i: usize = 0;
        proof {
            assert(where_true(0, keep) =~= Seq::empty()) by {
                reveal(Seq::filter);
            }
            assert(positions(kept@) =~= Seq::empty());
        }
        while i < self.snapshot.len()
            invariant
                i <= self.snapshot@.len(),
                entries == self.snapshot@,
                keep == alive(entries),
                names@ =~= labels(entries).take(i as int),
                positions(kept@) == where_true(i as nat, keep),
                forall|k: int| 0 <= k < kept@.len() ==> #[trigger] kept@[k] < entries.len(),
            decreases self.snapshot@.len() - i,
        {
            proof {
                lemma_where_true_step(i as nat, keep);
            }
            let entry: &RegistryEntry = &self.snapshot[i];
            names.push(entry.label.clone());
            if entry.lifecycle == AgentLifecycle::Alive {
                let ghost before = kept@;
                kept.push(i);
                proof {
                    assert(positions(kept@) =~= positions(before).push(i as int));
                }
            }
            i = i + 1;
        }
        proof {
            assert(names@ =~= labels(entries));
        }
        let r: Vec<usize> = sort_positions(&names, &kept);
        proof {
            lemma_where_true(entries.len(), keep);
            lemma_in_order(labels(entries), where_true(entries.len(), keep));
            assert forall|k: int| 0 <= k < r@.len() implies #[trigger] r@[k] < entries.len() by {
                assert(positions(r@)[k] == r@[k]);
                assert(living(entries).contains(positions(r@)[k]));
            }
        }
        r
    }

    /// Labels and entropy averages of the living agents, in the order of the
    /// labels.
    pub fn alive_entropy_data(&self) -> (r: Vec<(String, Single)>)
        ensures
            r@.len() == living(self.snapshot@).len(),
            forall|k: int|
                0 <= k < r@.len() ==> (#[trigger] r@[k]).0@ == self.snapshot@[living(
                    self.snapshot@,
                )[k]].label@ && r@[k].1 == self.snapshot@[living(self.snapshot@)[k]].entropy_ema,
    {
        let order: Vec<usize> = self.find_living();
        let mut r: Vec<(String, Single)> = Vec::new();
        let mut k: usize = 0;
        while k < order.len()
            invariant
                k <= order@.len(),
                r@.len() == k,
                positions(order@) == living(self.snapshot@),
                forall|j: int| 0 <= j < order@.len() ==> #[trigger] order@[j] < self.snapshot@.len(),
                forall|j: int|
                    0 <= j < k ==> (#[trigger] r@[j]).0@ == self.snapshot@[living(
                        self.snapshot@,
                    )[j]].label@ && r@[j].1 == self.snapshot@[living(
                        self.snapshot@,
                    )[j]].entropy_ema,
            decreases order@.len() - k,
        {
            let i: usize = order[k];
            proof {
                assert(positions(order@)[k as int] == i);
            }
            r.push((self.snapshot[i].label.clone(), self.snapshot[i].entropy_ema));
            k = k + 1;
        }
        r
    }

    /// Label and rewards of the selected agent, if it is in the snapshot.
    pub fn selected_agent_reward_series(&self) -> (r: Option<(String, Vec<(u64, Single)>)>)
        ensures
            match self.selected_agent_id {
                None => r is None,
                Some(id) => match place_of(self.snapshot@, id) {
                    None => r is None,
                    Some(i) => {
                        &&& r matches Some(series)
                        &&& series.0@ == self.snapshot@[i].label@
                        &&& series.1@ == reward_points(self.snapshot@[i].episode_history@)
                    },
                },
            },
    {
        let id: u64 = match self.selected_agent_id {
            None => {
                return None;
            },
            Some(id) => id,
        };
        let mut i: usize = 0;
        proof {
            assert(place_of(self.snapshot@.take(0), id) is None);
        }
        while i < self.snapshot.len()
            invariant
                i <= self.snapshot@.len(),
                self.selected_agent_id == Some(id),
                place_of(self.snapshot@.take(i as int), id) is None,
            decreases self.snapshot@.len() - i,
        {
            proof {
                assert(self.snapshot@.take(i + 1).drop_last() =~= self.snapshot@.take(i as int));
            }
            if self.snapshot[i].agent_id == id {
                proof {
                    lemma_place_of(self.snapshot@, id, i + 1);
                }
                let entry: &RegistryEntry = &self.snapshot[i];
                let points: Vec<(u64, Single)> = collect_points(&entry.episode_history);
                return Some((entry.label.clone(), points));
            }
            i = i + 1;
        }
        proof {
            assert(self.snapshot@.take(i as int) =~= self.snapshot@);
        }
        None
    }

    /// What the entropy panel shows.
    pub fn entropy_panel(&self) -> (r: EntropyPanel)
        ensures
            r is Nobody <==> living(self.snapshot@).len() == 0,
            r matches EntropyPanel::Bars { bars, highest } ==> {
                &&& bars@.len() == living(self.snapshot@).len()
                &&& forall|k: int|
                    0 <= k < bars@.len() ==> shows(
                        #[trigger] bars@[k],
                        self.snapshot@[living(self.snapshot@)[k]],
                        k,
                    )
                &&& Single::is_highest(entropies(bars@), highest)
            },
    {
        let data: Vec<(String, Single)> = self.alive_entropy_data();
        let ghost order = living(self.snapshot@);
        if data.len() == 0 {
            return EntropyPanel::Nobody;
        }
        let mut bars: Vec<Bar> = Vec::new();
        let mut values: Vec<Single> = Vec::new();
        let mut k: usize = 0;
        while k < data.len()
            invariant
                k <= data@.len(),
                order == living(self.snapshot@),
                data@.len() == order.len(),
                forall|j: int|
                    0 <= j < data@.len() ==> (#[trigger] data@[j]).0@
                        == self.snapshot@[order[j]].label@ && data@[j].1
                        == self.snapshot@[order[j]].entropy_ema,
                bars@.len() == k,
                forall|j: int|
                    0 <= j < k ==> shows(#[trigger] bars@[j], self.snapshot@[order[j]], j),
                values@ =~= entropies(bars@),
            decreases data@.len() - k,
        {
            proof {
                assert(data@[k as int].0@ == self.snapshot@[order[k as int]].label@);
            }
            let name: String = data[k].0.clone();
            let short_name: String = shorten(name.as_str());
            let entropy: Single = data[k].1;
            let color: BarColor = match k % 6 {
                0 => BarColor::Green,
                1 => BarColor::Yellow,
                2 => BarColor::Cyan,
                3 => BarColor::Magenta,
                4 => BarColor::LightBlue,
                _ => BarColor::LightRed,
            };
            bars.push(Bar { name, short_name, entropy, color });
            values.push(entropy);
            k = k + 1;
        }
        let highest: Option<Single> = Single::highest(&values);
        EntropyPanel::Bars { bars, highest }
    }

    /// What the reward panel shows.
    pub fn reward_panel(&self) -> (r: RewardPanel)
        ensures
            match self.selected_agent_id {
                None => r is Unselected,
                Some(id) => match place_of(self.snapshot@, id) {
                    None => r is Unselected,
                    Some(i) => curve_of(self.snapshot@[i], r),
                },
            },
    {
        let (label, points) = match self.selected_agent_reward_series() {
            None => {
                return RewardPanel::Unselected;
            },
            Some(series) => series,
        };
        if points.len() == 0 {
            let mut message: String = label;
            message.append(" – no episodes yet.");
            return RewardPanel::NoEpisodes { message };
        }
        let mut values: Vec<Single> = Vec::new();
        let mut i: usize = 0;
        while i < points.len()
            invariant
                i <= points@.len(),
                values@ =~= rewards_of(points@).take(i as int),
            decreases points@.len() - i,
        {
            values.push(points[i].1);
            i = i + 1;
        }
        proof {
            assert(values@ =~= rewards_of(points@));
        }
        let lowest: Option<Single> = Single::lowest(&values);
        let highest: Option<Single> = Single::highest(&values);
        let first_episode: u64 = points[0].0;
        let last_episode: u64 = points[points.len() - 1].0;
        let mut title: String = " Reward – ".to_owned();
        title.append(label.as_str());
        title.append(" ");
        RewardPanel::Curve { label, title, points, first_episode, last_episode, lowest, highest }
    }

    /// Makes the agent that is selected in the tree the selected one.
    pub fn sync_selection_from_tree(&mut self)
        ensures
            final(self).selected_agent_id == end_of(numbered_selected(old(self).tree_state)),
            final(self).tree_state == old(self).tree_state,
            final(self).snapshot == old(self).snapshot,
    {
        let path: Vec<u64> = numbered_selection(&self.tree_state);
        self.selected_agent_id = if path.len() == 0 {
            None
        } else {
            Some(path[path.len() - 1])
        };
    }

    /// Obeys a key; says whether it ends the program.  The release of a key
    /// means nothing.
    pub fn on_key(&mut self, pressed: bool, key: Key) -> (quit: bool)
        ensures
            quit == (pressed && quits(key)),
            final(self).snapshot == old(self).snapshot,
            match steer(numbered_navigation(old(self).tree_state), key) {
                Some(nav) if pressed => {
                    &&& numbered_navigation(final(self).tree_state) == nav
                    &&& final(self).selected_agent_id == end_of(nav.selected)
                },
                _ => {
                    &&& final(self).tree_state == old(self).tree_state
                    &&& final(self).selected_agent_id == old(self).selected_agent_id
                },
            },
    {
        if !pressed {
            return false;
        }
        match key {
            Key::Char('q') | Key::Esc => {
                return true;
            },
            Key::Down | Key::Char('j') => {
                numbered_down(&mut self.tree_state);
                self.sync_selection_from_tree();
            },
            Key::Up | Key::Char('k') => {
                numbered_up(&mut self.tree_state);
                self.sync_selection_from_tree();
            },
            Key::Left | Key::Char('h') => {
                numbered_left(&mut self.tree_state);
                self.sync_selection_from_tree();
            },
            Key::Right | Key::Char('l') => {
                numbered_right(&mut self.tree_state);
                self.sync_selection_from_tree();
            },
            Key::Enter | Key::Char(' ') => {
                numbered_toggled(&mut self.tree_state);
                self.sync_selection_from_tree();
            },
            _ => {},
        }
        false
    }
}

/// A bar shows an agent at a place.
pub open spec fn shows(bar: Bar, e: RegistryEntry, place: int) -> bool {
    &&& bar.name@ == e.label@
    &&& shortened(e.label@, bar.short_name@)
    &&& bar.entropy == e.entropy_ema
    &&& bar.color == bar_color(place)
}

pub open spec fn entropies(bars: Seq<Bar>) -> Seq<Single> {
    bars.map_values(|b: Bar| b.entropy)
}

/// The reward panel of an agent.
pub open spec fn curve_of(e: RegistryEntry, r: RewardPanel) -> bool {
    let all = reward_points(e.episode_history@);
    if all.len() == 0 {
        &&& r matches RewardPanel::NoEpisodes { message }
        &&& message@ == e.label@ + " – no episodes yet."@
    } else {
        &&& r matches RewardPanel::Curve {
            label,
            title,
            points,
            first_episode,
            last_episode,
            lowest,
            highest,
        }
        &&& label@ == e.label@
        &&& title@ == " Reward – "@ + e.label@ + " "@
        &&& points@ == all
        &&& first_episode == all[0].0
        &&& last_episode == all.last().0
        &&& Single::is_lowest(rewards_of(all), lowest)
        &&& Single::is_highest(rewards_of(all), highest)
    }
}

fn collect_points(history: &Vec<EpisodeRecord>) -> (r: Vec<(u64, Single)>)
    ensures
        r@ == reward_points(history@),
{
    let mut r: Vec<(u64, Single)> = Vec::new();
    let mut i: usize = 0;
    while i < history.len()
        invariant
            i <= history@.len(),
            r@ =~= reward_points(history@).take(i as int),
        decreases history@.len() - i,
    {
        r.push((history[i].episode_idx, history[i].total_reward));
        i = i + 1;
    }
    proof {
        assert(r@ =~= reward_points(history@));
    }
    r
}

/// The beginning of a name.
fn shorten(name: &str) -> (r: String)
    ensures
        shortened(name@, r@),
{
    let ghost bytes = encode_utf8(name@);
    proof {
        encode_utf8_valid_utf8(name@);
        is_char_boundary_start_end_of_seq(bytes);
    }
    let len: usize = name.as_bytes().len();
    let mut cut: usize = len;
    if len >= NAME_BYTES {
        cut = NAME_BYTES;
        while cut > 0 && !name.is_char_boundary(cut)
            invariant
                bytes == name.spec_bytes(),
                cut <= NAME_BYTES,
                boundary_before(bytes, NAME_BYTES as int) == boundary_before(bytes, cut as int),
            decreases cut,
        {
            cut = cut - 1;
        }
    }
    let (front, _) = name.split_at(cut);
    proof {
        valid_utf8_split(bytes, cut as int);
        decode_utf8_split(bytes, cut as int);
        encode_utf8_decode_utf8(name@);
        encode_utf8_decode_utf8(front@);
        assert(bytes.subrange(0, cut as int) =~= encode_utf8(front@));
        assert(bytes.take(cut as int) =~= encode_utf8(front@));
    }
    front.to_owned()
}

/// Divides the screen: the tree on the left, the other panels on the right.
pub fn panels(area: Area) -> (r: Panels)
    ensures
        area.encloses(r.tree),
        area.encloses(r.entropy),
        area.encloses(r.reward),
        area.fits() ==> {
            let column = portion(area.x as int, area.width as int, 30);
            let row = portion(area.y as int, area.height as int, 50);
            let right = area.x + area.width;
            let bottom = area.y + area.height;
            &&& r.tree.spans(area.x as int, area.y as int, column, bottom)
            &&& r.entropy.spans(column, area.y as int, right, row)
            &&& r.reward.spans(column, row, right, bottom)
        },
{
    let (tree, right) = halves(Axis::Horizontal, 30, area);
    let (entropy, reward) = halves(Axis::Vertical, 50, right);
    Panels { tree, entropy, reward }
}

/// The entropy panel lists the living agents and nobody else, each once, in the
/// order of their labels.
pub proof fn law_the_living_are_listed_by_label(entries: Seq<RegistryEntry>, i: int, j: int)
    ensures
        living(entries).no_duplicates(),
        forall|p: int| #[trigger]
            living(entries).contains(p) <==> 0 <= p < entries.len() && entries[p].lifecycle
                == AgentLifecycle::Alive,
        0 <= i < j < living(entries).len() ==> lex_le(
            entries[living(entries)[i]].label@,
            entries[living(entries)[j]].label@,
        ),
{
    let order = living(entries);
    lemma_where_true(entries.len(), alive(entries));
    lemma_in_order(labels(entries), where_true(entries.len(), alive(entries)));
    if 0 <= i < j < order.len() {
        assert(order.contains(order[i]) && order.contains(order[j]));
        assert(position_order(labels(entries))(order[i], order[j]));
    }
}

/// A beginning of a text ends between two of its characters.
proof fn lemma_beginnings(beginning: Seq<char>, name: Seq<char>)
    requires
        beginning.is_prefix_of(name),
    ensures
        encode_utf8(beginning).len() <= encode_utf8(name).len(),
        is_char_boundary(encode_utf8(name), encode_utf8(beginning).len() as int),
        beginning.len() < name.len() ==> encode_utf8(beginning).len() < encode_utf8(name).len(),
    decreases beginning.len(),
{
    encode_utf8_valid_utf8(name);
    is_char_boundary_start_end_of_seq(encode_utf8(name));
    if name.len() > 0 {
        encode_utf8_first_scalar(name);
        assert(encode_scalar(name[0] as u32).len() > 0);
    }
    if beginning.len() > 0 {
        assert(beginning[0] == name[0]);
        let (b, n) = (beginning.drop_first(), name.drop_first());
        assert(b =~= n.take(b.len() as int)) by {
            assert(beginning =~= name.take(beginning.len() as int));
            assert forall|i: int| 0 <= i < b.len() implies b[i] == n[i] by {
                assert(beginning[i + 1] == name[i + 1]);
            }
        }
        assert(pop_first_scalar(encode_utf8(name)) =~= encode_utf8(n));
        lemma_beginnings(b, n);
    }
}

proof fn lemma_boundary_before(bytes: Seq<u8>, limit: int, place: int)
    requires
        is_char_boundary(bytes, place),
        0 <= place <= limit,
    ensures
        place <= boundary_before(bytes, limit) <= limit,
    decreases limit,
{
    if limit > place {
        lemma_boundary_before(bytes, limit - 1, place);
    }
}

/// What is written under a bar is the longest beginning of the name that takes no
/// more than eight bytes.
pub proof fn law_short_names_are_as_long_as_fits(
    name: Seq<char>,
    short: Seq<char>,
    other: Seq<char>,
)
    requires
        shortened(name, short),
        other.is_prefix_of(name),
    ensures
        short.is_prefix_of(name),
        encode_utf8(short).len() <= 8,
        other.len() > short.len() ==> encode_utf8(other).len() > 8,
{
    let bytes = encode_utf8(name);
    lemma_beginnings(short, name);
    lemma_beginnings(other, name);
    encode_utf8_valid_utf8(name);
    is_char_boundary_start_end_of_seq(bytes);
    if bytes.len() >= 8 {
        lemma_boundary_before(bytes, 8, 0);
    }
    if other.len() > short.len() {
        assert(short =~= other.take(short.len() as int)) by {
            assert(short =~= name.take(short.len() as int));
            assert(other =~= name.take(other.len() as int));
        }
        lemma_beginnings(short, other);
        if encode_utf8(other).len() <= 8 && bytes.len() >= 8 {
            lemma_boundary_before(bytes, 8, encode_utf8(other).len() as int);
        }
    }
}

/// The colors of the bars come round every six places, and not before.
pub proof fn law_colors_take_turns(i: int, j: int)
    ensures
        bar_color(i) == bar_color(j) <==> i % 6 == j % 6,
        bar_color(6 * i) == BarColor::Green,
        bar_color(6 * i + 1) == BarColor::Yellow,
        bar_color(6 * i + 2) == BarColor::Cyan,
        bar_color(6 * i + 3) == BarColor::Magenta,
        bar_color(6 * i + 4) == BarColor::LightBlue,
        bar_color(6 * i + 5) == BarColor::LightRed,
{
}

/// A bar belongs to its agent: the name and the entropy are the agent's.
pub proof fn law_bars_belong_to_agents(bar: Bar, e: RegistryEntry, place: int)
    requires
        shows(bar, e, place),
    ensures
        bar.name@ == e.label@,
        bar.short_name@.is_prefix_of(e.label@),
        bar.entropy == e.entropy_ema,
        bar.color == bar_color(place),
{
}

/// Of agents with the same label, the one that stands first in the list is shown
/// first.
pub proof fn law_equal_labels_keep_their_order(entries: Seq<RegistryEntry>, i: int, j: int)
    requires
        0 <= i < j < living(entries).len(),
        entries[living(entries)[i]].label@ == entries[living(entries)[j]].label@,
    ensures
        living(entries)[i] < living(entries)[j],
{
    let order = living(entries);
    law_the_living_are_listed_by_label(entries, i, j);
    lemma_where_true(entries.len(), alive(entries));
    crate::order::law_sorting_is_stable(
        labels(entries),
        where_true(entries.len(), alive(entries)),
        i,
        j,
    );
    assert(order.contains(order[i]) && order.contains(order[j]));
    assert(labels(entries)[order[i]]@ == labels(entries)[order[j]]@);
    crate::text::law_labels_are_ordered_by_characters(
        entries[order[j]].label@,
        entries[order[i]].label@,
    );
    assert(entries[order[j]].label@.is_prefix_of(entries[order[i]].label@)) by {
        let l = entries[order[j]].label@;
        assert(l =~= l.take(l.len() as int));
    }
}

/// The curve of an agent has a point for each of its episodes, in their order: the
/// number of the episode and what it brought.  It reaches from the first episode to
/// the last, and no point lies below the lowest value or above the highest.
pub proof fn law_curves_show_every_episode(e: RegistryEntry, r: RewardPanel, k: int)
    requires
        curve_of(e, r),
    ensures
        e.episode_history@.len() == 0 <==> r is NoEpisodes,
        e.episode_history@.len() > 0 <==> r is Curve,
        r matches RewardPanel::Curve {
            label,
            title,
            points,
            first_episode,
            last_episode,
            lowest,
            highest,
        } ==> {
            let history = e.episode_history@;
            &&& label@ == e.label@
            &&& points@.len() == history.len()
            &&& first_episode == history[0].episode_idx
            &&& last_episode == history[history.len() - 1].episode_idx
            &&& 0 <= k < history.len() ==> {
                &&& points@[k].0 == history[k].episode_idx
                &&& points@[k].1 == history[k].total_reward
                &&& lowest matches Some(v) ==> !history[k].total_reward.below(v)
                &&& highest matches Some(v) ==> !v.below(history[k].total_reward)
                &&& !history[k].total_reward.nan() ==> lowest is Some && highest is Some
            }
        },
{
    let values = rewards_of(reward_points(e.episode_history@));
    if 0 <= k < e.episode_history@.len() {
        assert(values[k] == e.episode_history@[k].total_reward);
    }
}

/// The keys of the tree: the letters do what the arrows do, Enter and the space bar
/// do the same, and nothing else does anything.  Only `q` and Escape end the program.
pub proof fn law_what_keys_do(nav: Navigation<u64>, c: char)
    ensures
        steer(nav, Key::Down) == Some(nav.down()),
        steer(nav, Key::Up) == Some(nav.up()),
        steer(nav, Key::Left) == Some(nav.left()),
        steer(nav, Key::Right) == Some(nav.right()),
        steer(nav, Key::Enter) == Some(nav.toggled()),
        steer(nav, Key::Char('j')) == steer(nav, Key::Down),
        steer(nav, Key::Char('k')) == steer(nav, Key::Up),
        steer(nav, Key::Char('h')) == steer(nav, Key::Left),
        steer(nav, Key::Char('l')) == steer(nav, Key::Right),
        steer(nav, Key::Char(' ')) == steer(nav, Key::Enter),
        c != 'j' && c != 'k' && c != 'h' && c != 'l' && c != ' ' ==> steer(nav, Key::Char(c))
            is None,
        steer(nav, Key::Esc) is None,
        steer(nav, Key::Other) is None,
        quits(Key::Esc),
        quits(Key::Char(c)) <==> c == 'q',
        forall|key: Key| #[trigger] quits(key) ==> steer(nav, key) is None,
        !quits(Key::Down) && !quits(Key::Up) && !quits(Key::Left) && !quits(Key::Right)
            && !quits(Key::Enter) && !quits(Key::Other),
{
}

/// A path leads to the node that it ends with.
pub proof fn law_paths_lead_to_their_end(path: Seq<u64>, node: u64)
    ensures
        end_of(Seq::empty()) is None,
        end_of(path.push(node)) == Some(node),
{
}

/// The entropies of some bars are those of each, in their order.
pub proof fn law_entropies_are_those_of_the_bars(bars: Seq<Bar>, k: int)
    requires
        0 <= k < bars.len(),
    ensures
        entropies(bars).len() == bars.len(),
        entropies(bars)[k] == bars[k].entropy,
{
}

} // verus!
