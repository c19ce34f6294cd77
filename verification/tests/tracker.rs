use flappy_bird::dqn_tracker::lineage::MetricText;
use flappy_bird::dqn_tracker::registry::{AgentLifecycle, AgentRegistry, EpisodeRecord};
use flappy_bird::dqn_tracker::view::{App, BarColor, EntropyPanel, RewardPanel};
use flappy_bird::keys::Key;
use flappy_bird::scalar::Single;
use ratatui::backend::TestBackend;
use ratatui::style::Color;
use ratatui::Terminal;
use tui_tree_widget::Tree;

fn single(v: f32) -> Single {
    Single { bits: v.to_bits() }
}

fn record(episode_idx: u64, total_reward: f32, entropy: f32) -> EpisodeRecord {
    EpisodeRecord {
        episode_idx,
        total_reward: single(total_reward),
        step_rewards: vec![single(1.0), single(2.0)],
        entropy_ema_snapshot: single(entropy),
    }
}

fn metrics(app: &App) -> Vec<MetricText> {
    app.snapshot
        .iter()
        .map(|e| MetricText {
            entropy: format!("{:.3}", f32::from_bits(e.entropy_ema.bits)),
            score: format!("{:.1}", f32::from_bits(e.score_ema.bits)),
        })
        .collect()
}

fn draw(app: &mut App) -> Vec<(String, Color)> {
    let items = app.build_tree_items(&metrics(app));
    let mut terminal = Terminal::new(TestBackend::new(60, 8)).unwrap();
    terminal
        .draw(|f| {
            let tree = Tree::new(&items).unwrap();
            f.render_stateful_widget(tree, f.area(), &mut app.tree_state);
        })
        .unwrap();
    let buffer = terminal.backend().buffer().clone();
    (0..8)
        .map(|y| {
            let text: String = (0..60).map(|x| buffer[(x, y)].symbol().to_string()).collect();
            let color = (0..60)
                .map(|x| buffer[(x, y)].fg)
                .find(|c| *c != Color::Reset)
                .unwrap_or(Color::Reset);
            (text.trim_end().to_string(), color)
        })
        .filter(|(text, _)| !text.is_empty())
        .collect()
}

fn family() -> AgentRegistry {
    let mut r = AgentRegistry::new();
    let root = r.register("root".to_string(), None);
    let a = r.register("child-a".to_string(), Some(root));
    r.register("child-b".to_string(), Some(root));
    r.register("grandchild".to_string(), Some(a));
    r.register("orphan".to_string(), Some(99));
    r.register("other".to_string(), None);
    r
}

#[test]
fn ids_count_up_from_one() {
    let mut r = AgentRegistry::new();
    assert_eq!(r.register("a".to_string(), None), 1);
    assert_eq!(r.register("a".to_string(), Some(1)), 2);
    r.discard(2);
    assert_eq!(r.register("b".to_string(), Some(7)), 3);
    let mut ids: Vec<u64> = r.snapshot().iter().map(|e| e.agent_id).collect();
    ids.sort();
    assert_eq!(ids, vec![1, 2, 3]);
}

#[test]
fn fresh_entries_are_alive_and_empty() {
    let mut r = AgentRegistry::new();
    r.register("gen-0".to_string(), Some(4));
    let e = &r.snapshot()[0];
    assert_eq!(e.label, "gen-0");
    assert_eq!(e.parent_id, Some(4));
    assert_eq!(e.lifecycle, AgentLifecycle::Alive);
    assert_eq!((e.entropy_ema.bits, e.score_ema.bits, e.episodes), (0, 0, 0));
    assert!(e.episode_history.is_empty());
}

#[test]
fn entries_keep_their_history_when_discarded() {
    let mut r = AgentRegistry::new();
    let id = r.register("a".to_string(), None);
    r.push_episode(id, record(0, 5.0, 0.25));
    r.push_episode(id, record(6, 7.5, 0.5));
    r.update_score_ema(id, single(1.5));
    r.discard(id);
    r.push_episode(77, record(1, 1.0, 1.0));
    r.update_score_ema(78, single(9.0));
    r.discard(79);
    let all = r.snapshot();
    assert_eq!(all.len(), 1);
    let e = &all[0];
    assert_eq!(e.lifecycle, AgentLifecycle::Discarded);
    assert_eq!(e.episodes, 7);
    assert_eq!(e.entropy_ema, single(0.5));
    assert_eq!(e.score_ema, single(1.5));
    let totals: Vec<f32> = e
        .episode_history
        .iter()
        .map(|h| f32::from_bits(h.total_reward.bits))
        .collect();
    assert_eq!(totals, vec![5.0, 7.5]);
    assert_eq!(e.episode_history[0].step_rewards, vec![single(1.0), single(2.0)]);
}

#[test]
fn snapshots_are_taken_when_stale() {
    let mut r = AgentRegistry::new();
    let mut app = App::new(&r);
    assert!(app.snapshot.is_empty());
    r.register("late".to_string(), None);
    assert!(!app.refresh_if_stale(200_000_000, &r));
    assert!(app.snapshot.is_empty());
    assert!(app.refresh_if_stale(200_000_001, &r));
    assert_eq!(app.snapshot.len(), 1);
}

#[test]
fn the_lineage_is_drawn_with_marks_and_colors() {
    let mut r = family();
    r.push_episode(1, record(2, 1.0, 0.125));
    r.update_score_ema(1, single(2.25));
    r.discard(6);
    let mut app = App::new(&r);
    let rows = draw(&mut app);
    assert_eq!(rows.len(), 2);
    assert!(rows[0].0.ends_with("\u{25cf} root [H:0.125 S:2.2 ep:3]"), "{}", rows[0].0);
    assert_eq!(rows[0].1, Color::Green);
    assert!(rows[1].0.ends_with("\u{2715} other [H:0.000 S:0.0 ep:0]"), "{}", rows[1].0);
    assert_eq!(rows[1].1, Color::DarkGray);
}

#[test]
fn the_lineage_shows_the_rooted_once_each() {
    let mut app = App::new(&family());
    draw(&mut app);
    assert!(!app.on_key(true, Key::Down));
    assert!(!app.on_key(true, Key::Right));
    draw(&mut app);
    assert!(!app.on_key(true, Key::Down));
    assert!(!app.on_key(true, Key::Enter));
    let rows = draw(&mut app);
    let names: Vec<&str> = rows
        .iter()
        .map(|(text, _)| {
            text.split_once("\u{25cf} ").unwrap().1.split(' ').next().unwrap()
        })
        .collect();
    assert_eq!(names, vec!["root", "child-a", "grandchild", "child-b", "other"]);
}

#[test]
fn keys_move_through_the_tree() {
    let mut app = App::new(&family());
    assert_eq!(app.selected_agent_id, None);
    assert!(!app.on_key(true, Key::Enter));
    assert!(!app.on_key(true, Key::Right));
    assert_eq!(app.selected_agent_id, None);
    draw(&mut app);
    app.on_key(true, Key::Up);
    assert_eq!(app.tree_state.selected(), &[6]);
    app.on_key(true, Key::Char('k'));
    assert_eq!(app.tree_state.selected(), &[1]);
    app.on_key(true, Key::Up);
    assert_eq!(app.tree_state.selected(), &[1]);
    app.on_key(true, Key::Char(' '));
    draw(&mut app);
    app.on_key(true, Key::Char('j'));
    assert_eq!(app.tree_state.selected(), &[1, 2]);
    assert_eq!(app.selected_agent_id, Some(2));
    app.on_key(true, Key::Char('h'));
    assert_eq!(app.tree_state.selected(), &[1]);
    app.on_key(true, Key::Left);
    draw(&mut app);
    app.on_key(true, Key::Down);
    assert_eq!(app.tree_state.selected(), &[6]);
    assert_eq!(app.selected_agent_id, Some(6));
    app.on_key(true, Key::Down);
    assert_eq!(app.tree_state.selected(), &[6]);
    app.on_key(true, Key::Left);
    assert!(app.tree_state.selected().is_empty());
    assert_eq!(app.selected_agent_id, None);
    app.on_key(true, Key::Char('l'));
    assert!(app.tree_state.opened().is_empty());
}

#[test]
fn releases_mean_nothing_and_two_keys_quit() {
    let mut app = App::new(&family());
    draw(&mut app);
    assert!(!app.on_key(false, Key::Char('q')));
    assert!(!app.on_key(false, Key::Down));
    assert!(app.tree_state.selected().is_empty());
    assert!(!app.on_key(true, Key::Char('x')));
    assert!(!app.on_key(true, Key::Other));
    assert!(app.on_key(true, Key::Char('q')));
    assert!(app.on_key(true, Key::Esc));
}

#[test]
fn the_entropy_panel_lists_the_living_by_label() {
    let mut r = AgentRegistry::new();
    for (i, name) in ["zeta", "alpha-long-name", "dead", "mid", "n", "o", "p", "q"].iter().enumerate() {
        let id = r.register(name.to_string(), None);
        r.push_episode(id, record(0, 0.0, i as f32 / 10.0));
    }
    r.discard(3);
    let app = App::new(&r);
    let data = app.alive_entropy_data();
    let names: Vec<&str> = data.iter().map(|d| d.0.as_str()).collect();
    assert_eq!(names, vec!["alpha-long-name", "mid", "n", "o", "p", "q", "zeta"]);
    assert_eq!(data[0].1, single(0.1));
    match app.entropy_panel() {
        EntropyPanel::Bars { bars, highest } => {
            assert_eq!(bars.len(), 7);
            assert_eq!(bars[0].name, "alpha-long-name");
            assert_eq!(bars[0].short_name, "alpha-lo");
            assert_eq!(bars[1].short_name, "mid");
            assert_eq!(bars[5].color, BarColor::LightRed);
            assert_eq!(bars[6].color, BarColor::Green);
            assert_eq!(highest, Some(single(0.7)));
        }
        EntropyPanel::Nobody => panic!("there are living agents"),
    }
}

#[test]
fn the_entropy_panel_without_anybody() {
    let mut r = AgentRegistry::new();
    let id = r.register("a".to_string(), None);
    r.discard(id);
    assert!(matches!(App::new(&r).entropy_panel(), EntropyPanel::Nobody));
}

#[test]
fn the_reward_panel_follows_the_selection() {
    let mut r = AgentRegistry::new();
    let a = r.register("a".to_string(), None);
    let b = r.register("b".to_string(), None);
    r.push_episode(b, record(3, -4.0, 0.0));
    r.push_episode(b, record(4, 12.5, 0.0));
    r.push_episode(b, record(9, f32::NAN, 0.0));
    let mut app = App::new(&r);
    assert!(matches!(app.reward_panel(), RewardPanel::Unselected));
    assert!(app.selected_agent_reward_series().is_none());
    app.selected_agent_id = Some(50);
    assert!(matches!(app.reward_panel(), RewardPanel::Unselected));
    app.selected_agent_id = Some(a);
    match app.reward_panel() {
        RewardPanel::NoEpisodes { message } => assert_eq!(message, "a \u{2013} no episodes yet."),
        _ => panic!("no episodes"),
    }
    app.selected_agent_id = Some(b);
    match app.reward_panel() {
        RewardPanel::Curve {
            label,
            title,
            points,
            first_episode,
            last_episode,
            lowest,
            highest,
        } => {
            assert_eq!(label, "b");
            assert_eq!(title, " Reward \u{2013} b ");
            assert_eq!(points.len(), 3);
            assert_eq!(points[1], (4, single(12.5)));
            assert_eq!((first_episode, last_episode), (3, 9));
            assert_eq!(lowest, Some(single(-4.0)));
            assert_eq!(highest, Some(single(12.5)));
        }
        _ => panic!("a curve"),
    }
}

#[test]
fn the_agent_selected_in_the_tree_is_the_selected_one() {
    let mut app = App::new(&family());
    app.tree_state.select(vec![1, 3]);
    app.sync_selection_from_tree();
    assert_eq!(app.selected_agent_id, Some(3));
    app.tree_state.select(vec![1, 2, 4]);
    app.sync_selection_from_tree();
    assert_eq!(app.selected_agent_id, Some(4));
    app.tree_state.select(vec![]);
    app.sync_selection_from_tree();
    assert_eq!(app.selected_agent_id, None);
}

#[test]
fn names_are_cut_between_characters() {
    for (name, short) in [
        ("a\u{e9}\u{e9}\u{e9}\u{e9}", "a\u{e9}\u{e9}\u{e9}"),
        ("\u{e9}\u{e9}\u{e9}\u{e9}\u{e9}", "\u{e9}\u{e9}\u{e9}\u{e9}"),
        ("abcdefg\u{1f426}", "abcdefg"),
        ("abcde\u{1f426}", "abcde"),
        ("abcd\u{1f426}z", "abcd\u{1f426}"),
        ("12345678", "12345678"),
        ("", ""),
    ] {
        let mut r = AgentRegistry::new();
        r.register(name.to_string(), None);
        match App::new(&r).entropy_panel() {
            EntropyPanel::Bars { bars, .. } => {
                assert_eq!((bars[0].name.as_str(), bars[0].short_name.as_str()), (name, short));
            }
            EntropyPanel::Nobody => panic!("there is a living agent"),
        }
    }
}

#[test]
fn agents_can_be_looked_up() {
    let mut r = AgentRegistry::new();
    assert_eq!(r.next_id(), 1);
    r.register("a".to_string(), None);
    assert!(r.has(1) && !r.has(2) && !r.has(0));
    assert_eq!(r.next_id(), 2);
    r.push_episode(9, record(u64::MAX, 0.0, 0.0));
    assert_eq!(r.snapshot().len(), 1);
}

#[test]
fn the_top_items_are_the_roots() {
    let mut r = family();
    r.register("third".to_string(), None);
    let app = App::new(&r);
    let items = app.build_tree_items(&metrics(&app));
    let ids: Vec<u64> = items.iter().map(|i| *i.identifier()).collect();
    assert_eq!(ids, vec![1, 6, 7]);
}

#[test]
fn ids_count_the_agents() {
    let mut r = family();
    r.discard(2);
    r.discard(99);
    let n = r.snapshot().len() as u64;
    assert_eq!(n, 6);
    assert_eq!(r.next_id(), n + 1);
    for id in 0..10 {
        assert_eq!(r.has(id), 1 <= id && id <= n);
    }
}
