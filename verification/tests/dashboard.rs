use flappy_bird::dqn_tracker_main::agents::{Agent, AgentRegistry, AgentStatus};
use flappy_bird::dqn_tracker_main::lineage::RewardText;
use flappy_bird::dqn_tracker_main::view::{
    best_panel, sample, sum_chart, trend, trend_rewards, App, BestText, DetailPanel, DetailText,
    RewardChart, SpanColor, StyledSpan, SumChart,
};
use flappy_bird::keys::Key;
use flappy_bird::scalar::Double;
use ratatui::backend::TestBackend;
use ratatui::Terminal;
use tui_tree_widget::Tree;

fn double(v: f64) -> Double {
    Double { bits: v.to_bits() }
}

fn add(r: &mut AgentRegistry, id: &str, generation: u32, parent: Option<&str>) -> usize {
    r.register(
        id.to_string(),
        generation,
        parent.map(|p| p.to_string()),
        double(0.5),
        double(0.001),
    )
}

fn family() -> AgentRegistry {
    let mut r = AgentRegistry::new();
    add(&mut r, "Alpha", 0, None);
    add(&mut r, "Beta", 0, None);
    add(&mut r, "Alpha-v2", 1, Some("Alpha"));
    add(&mut r, "Alpha-v3", 1, Some("Alpha"));
    add(&mut r, "Alpha-v2-elite", 2, Some("Alpha-v2"));
    r
}

fn texts(r: &AgentRegistry) -> Vec<RewardText> {
    (0..r.len())
        .map(|i| RewardText {
            average: format!("{}.0", i),
            best: format!("{:.1}", f64::from_bits(r.agent(i).shown_best().bits)),
        })
        .collect()
}

fn draw(app: &mut App, r: &AgentRegistry) -> Vec<String> {
    let items = app.build_tree_items(r, &texts(r)).unwrap();
    let mut terminal = Terminal::new(TestBackend::new(80, 10)).unwrap();
    terminal
        .draw(|f| {
            let tree = Tree::new(&items).unwrap();
            f.render_stateful_widget(tree, f.area(), &mut app.tree_state);
        })
        .unwrap();
    let buffer = terminal.backend().buffer().clone();
    (0..10)
        .map(|y| {
            let text: String = (0..80).map(|x| buffer[(x, y)].symbol().to_string()).collect();
            text.trim_end().to_string()
        })
        .filter(|text| !text.is_empty())
        .collect()
}

fn texts_of(line: &Vec<StyledSpan>) -> Vec<&str> {
    line.iter().map(|s| s.text.as_str()).collect()
}

#[test]
fn registering_links_parents_and_roots() {
    let r = family();
    assert_eq!(r.len(), 5);
    assert_eq!(r.root_ids(), &vec!["Alpha".to_string(), "Beta".to_string()]);
    let alpha = r.agent(r.find(&"Alpha".to_string()).unwrap());
    assert_eq!(alpha.children, vec!["Alpha-v2".to_string(), "Alpha-v3".to_string()]);
    assert_eq!(alpha.status, AgentStatus::Training);
    let v2 = r.agent(2);
    assert_eq!(v2.parent, Some("Alpha".to_string()));
    assert_eq!((v2.epsilon, v2.learning_rate), (double(0.5), double(0.001)));
    assert_eq!(r.find(&"Gamma".to_string()), None);
}

#[test]
fn names_mean_the_last_registered() {
    let mut r = family();
    let first = r.find(&"Beta".to_string()).unwrap();
    let second = add(&mut r, "Beta", 1, Some("Nobody"));
    assert_eq!(second, 5);
    assert_ne!(first, second);
    assert_eq!(r.find(&"Beta".to_string()), Some(second));
    assert_eq!(r.find(&"Alpha".to_string()), Some(0));
    r.record_episode(first, double(3.0), double(0.4));
    assert_eq!(r.agent(first).episodes.len(), 1);
    assert_eq!(r.agent(second).episodes.len(), 0);
}

#[test]
fn there_is_one_best() {
    let mut r = family();
    r.update_best(&"Alpha".to_string(), double(10.0), double(0.0));
    assert_eq!(r.agent(0).status, AgentStatus::Best);
    r.update_best(&"Beta".to_string(), double(11.0), double(1.0));
    assert_eq!(r.agent(0).status, AgentStatus::Training);
    assert_eq!(r.agent(1).status, AgentStatus::Best);
    r.update_best(&"Beta".to_string(), double(12.0), double(2.0));
    assert_eq!(r.agent(1).status, AgentStatus::Best);
    r.update_best(&"Unknown".to_string(), double(13.0), double(3.0));
    assert_eq!(r.agent(1).status, AgentStatus::Training);
    assert_eq!(r.best_agent_id(), &Some("Unknown".to_string()));
    let best = (0..r.len()).filter(|i| r.agent(*i).status == AgentStatus::Best).count();
    assert_eq!(best, 0);
    assert_eq!(r.best_rewards()[1], (double(1.0), double(11.0)));
}

#[test]
fn only_recent_rewards_are_remembered() {
    let mut r = family();
    for i in 0..203 {
        r.update_best(&"Alpha".to_string(), double(i as f64 * 2.0), double(i as f64));
    }
    assert_eq!(r.best_rewards().len(), 200);
    assert_eq!(r.best_rewards()[0], (double(3.0), double(6.0)));
    assert_eq!(r.best_rewards()[199], (double(202.0), double(404.0)));
}

#[test]
fn agents_finish_after_enough_episodes_without_exploring() {
    let mut r = AgentRegistry::new();
    let h = add(&mut r, "A", 0, None);
    for _ in 0..151 {
        r.record_episode(h, double(1.0), double(0.05));
        assert_eq!(r.agent(h).status, AgentStatus::Training);
    }
    r.record_episode(h, double(1.0), double(0.07));
    assert_eq!(r.agent(h).status, AgentStatus::Training);
    r.record_episode(h, double(1.0), double(0.06));
    assert_eq!(r.agent(h).status, AgentStatus::Finished);
    assert_eq!(r.agent(h).epsilon, double(0.06));
    r.update_best(&"A".to_string(), double(1.0), double(1.0));
    assert_eq!(r.agent(h).status, AgentStatus::Best);
}

#[test]
fn a_finished_agent_is_not_demoted() {
    let mut r = family();
    r.update_best(&"Beta".to_string(), double(1.0), double(0.0));
    for _ in 0..152 {
        r.record_episode(1, double(1.0), double(0.05));
    }
    assert_eq!(r.agent(1).status, AgentStatus::Finished);
    r.update_best(&"Alpha".to_string(), double(2.0), double(0.0));
    assert_eq!(r.agent(0).status, AgentStatus::Best);
    assert_eq!(r.agent(1).status, AgentStatus::Finished);
}

#[test]
fn best_rewards_of_agents() {
    let mut a = Agent::new("a".to_string(), 0, None, double(0.1), double(0.1));
    assert_eq!(f64::from_bits(a.best_reward().bits), f64::NEG_INFINITY);
    assert_eq!(a.shown_best().bits, 0);
    a.episodes = vec![double(-3.0), double(f64::NAN), double(-1.5)];
    assert_eq!(a.best_reward(), double(-1.5));
    assert_eq!(a.shown_best(), double(-1.5));
    a.episodes = vec![double(f64::NEG_INFINITY)];
    assert_eq!(a.shown_best().bits, 0);
}

#[test]
fn the_family_tree_is_drawn() {
    let mut r = family();
    r.record_episode(0, double(12.25), double(0.5));
    r.update_best(&"Alpha".to_string(), double(1.0), double(0.0));
    let mut app = App::new(&r);
    assert_eq!(app.selected_id, Some("Alpha".to_string()));
    let rows = draw(&mut app, &r);
    assert_eq!(rows.len(), 2);
    assert!(
        rows[0].ends_with("[*] Alpha | ep:  1 | avg:    0.0 | best:   12.2"),
        "{}",
        rows[0]
    );
    assert!(
        rows[1].ends_with("[~] Beta | ep:  0 | avg:    1.0 | best:    0.0"),
        "{}",
        rows[1]
    );
}

#[test]
fn the_family_tree_opens_and_selects() {
    let r = family();
    let mut app = App::new(&r);
    draw(&mut app, &r);
    assert!(!app.on_key(false, Key::Enter));
    assert_eq!(app.selected_id, Some("Alpha".to_string()));
    app.on_key(false, Key::Down);
    app.on_key(false, Key::Right);
    let rows = draw(&mut app, &r);
    assert_eq!(rows.len(), 4);
    assert!(rows[1].contains("Alpha-v2 |"));
    assert!(rows[2].contains("Alpha-v3 |"));
    app.on_key(false, Key::Down);
    app.on_key(false, Key::Enter);
    assert_eq!(app.selected_id, Some("Alpha-v2".to_string()));
    let rows = draw(&mut app, &r);
    assert_eq!(rows.len(), 5);
    assert!(rows[2].contains("Alpha-v2-elite |"));
    app.on_key(false, Key::Left);
    app.on_key(false, Key::Left);
    assert_eq!(app.tree_state.selected(), &["Alpha".to_string()]);
    app.on_key(false, Key::Up);
    assert_eq!(app.tree_state.selected(), &["Alpha".to_string()]);
    assert_eq!(app.selected_id, Some("Alpha-v2".to_string()));
}

#[test]
fn two_children_of_one_name_have_no_tree() {
    let mut r = family();
    add(&mut r, "Alpha-v2", 1, Some("Alpha"));
    assert!(App::new(&r).build_tree_items(&r, &texts(&r)).is_none());
}

#[test]
fn quitting_the_dashboard() {
    let r = family();
    let mut app = App::new(&r);
    assert!(app.on_key(false, Key::Char('q')));
    assert!(app.on_key(true, Key::Char('c')));
    assert!(!app.on_key(false, Key::Char('c')));
    assert!(!app.on_key(false, Key::Esc));
    assert!(!app.on_key(true, Key::Other));
}

#[test]
fn without_roots_nothing_is_selected() {
    let r = AgentRegistry::new();
    let app = App::new(&r);
    assert_eq!(app.selected_id, None);
    assert!(app.reward_chart_data(&r).is_empty());
    assert!(matches!(app.reward_chart(&r), RewardChart::Waiting));
    assert!(matches!(sum_chart(&r, &vec![]), SumChart::Waiting));
    let text = DetailText {
        learning_rate: String::new(),
        epsilon: String::new(),
        total: String::new(),
    };
    assert!(matches!(app.detail_panel(&r, &text), DetailPanel::NoneSelected));
}

#[test]
fn curves_are_thinned_out() {
    let data: Vec<(usize, Double)> = (0..901).map(|i| (i, double(i as f64))).collect();
    let thin = sample(&data);
    assert_eq!(thin.len(), 301);
    assert_eq!(thin[1].0, 3);
    assert_eq!(thin[300].0, 900);
    assert_eq!(sample(&data[..599].to_vec()).len(), 599);
    assert_eq!(sample(&data[..600].to_vec()).len(), 300);
    assert!(sample(&vec![]).is_empty());
}

#[test]
fn the_reward_curve() {
    let mut r = family();
    for v in [3.0, -2.5, f64::NAN, 8.0] {
        r.record_episode(0, double(v), double(0.5));
    }
    let app = App::new(&r);
    match app.reward_chart(&r) {
        RewardChart::Curve {
            title,
            points,
            last_episode,
            lowest,
            highest,
        } => {
            assert_eq!(title, " Episode Rewards -- Alpha ");
            assert_eq!(points.len(), 4);
            assert_eq!(points[1], (1, double(-2.5)));
            assert_eq!(last_episode, 3);
            assert_eq!((lowest, highest), (Some(double(-2.5)), Some(double(8.0))));
        }
        RewardChart::Waiting => panic!("there are episodes"),
    }
}

#[test]
fn the_curve_of_sums_with_the_best() {
    let mut r = family();
    let sums = vec![(0, double(1.0)), (1, double(4.0))];
    match sum_chart(&r, &sums) {
        SumChart::Curves {
            points,
            last_episode,
            with_best,
            lowest,
            highest,
        } => {
            assert_eq!(points, sums);
            assert_eq!(last_episode, Some(1));
            assert!(!with_best);
            assert_eq!((lowest, highest), (Some(double(1.0)), Some(double(4.0))));
        }
        SumChart::Waiting => panic!("there are sums"),
    }
    r.update_best(&"Alpha".to_string(), double(-9.0), double(100.0));
    match sum_chart(&r, &vec![]) {
        SumChart::Curves {
            points,
            last_episode,
            with_best,
            lowest,
            highest,
        } => {
            assert!(points.is_empty());
            assert_eq!(last_episode, None);
            assert!(with_best);
            assert_eq!((lowest, highest), (Some(double(-9.0)), Some(double(-9.0))));
        }
        SumChart::Waiting => panic!("there is a best reward"),
    }
}

#[test]
fn the_trend_line() {
    let mut r = family();
    assert!(trend_rewards(&r).is_none());
    for i in 0..30 {
        r.update_best(&"Alpha".to_string(), double(i as f64), double(0.0));
    }
    let rewards = trend_rewards(&r).unwrap();
    assert_eq!(rewards.len(), 24);
    assert_eq!((rewards[0], rewards[23]), (double(6.0), double(29.0)));
    assert_eq!(trend(&None), "Collecting data...");
    assert_eq!(
        trend(&Some(vec![0, 1, 2, 3, 4, 5, 6, 7, 8, 900])),
        "\u{2581}\u{2582}\u{2583}\u{2584}\u{2585}\u{2586}\u{2587}\u{2588}\u{2588}\u{2588}"
    );
    assert_eq!(trend(&Some(vec![])), "");
}

#[test]
fn the_best_agents_panel() {
    let mut r = family();
    let text = BestText {
        total: "12.5".to_string(),
        average: "6.2".to_string(),
        best_episode: "9.0".to_string(),
        epsilon: "0.500".to_string(),
    };
    let lines = best_panel(&r, &text, &"...".to_string());
    assert_eq!(texts_of(&lines[0]), vec![" Best Agent: ", "None", "  gen:0  e:0.500"]);
    r.record_episode(4, double(1.0), double(0.5));
    r.update_best(&"Alpha-v2-elite".to_string(), double(1.0), double(0.0));
    let lines = best_panel(&r, &text, &"...".to_string());
    assert_eq!(
        texts_of(&lines[0]),
        vec![" Best Agent: ", "Alpha-v2-elite", "  gen:2  e:0.500"]
    );
    assert_eq!(texts_of(&lines[1]), vec![" Total Reward: ", "12.5", "  Avg/ep: ", "6.2"]);
    assert_eq!(texts_of(&lines[2]), vec![" Best Ep: ", "9.0", "  Episodes: ", "1"]);
    assert_eq!(texts_of(&lines[3]), vec![" Trend: ", "..."]);
    assert!(lines[0][0].bold && !lines[0][2].bold);
    assert_eq!(lines[3][1].color, SpanColor::Yellow);
}

#[test]
fn the_selected_agents_panel() {
    let mut r = family();
    r.update_best(&"Alpha".to_string(), double(1.0), double(0.0));
    let text = DetailText {
        learning_rate: "0.00100".to_string(),
        epsilon: "0.5000".to_string(),
        total: "0.0".to_string(),
    };
    let mut app = App::new(&r);
    match app.detail_panel(&r, &text) {
        DetailPanel::Lines { title, lines } => {
            assert_eq!(title, " Agent: Alpha ");
            assert_eq!(
                texts_of(&lines[0]),
                vec![" ID: ", "Alpha", "  Status: ", "BEST", "  Gen: ", "0"]
            );
            assert_eq!(lines[0][3].color, SpanColor::Yellow);
            assert_eq!(
                texts_of(&lines[1]),
                vec![" Parent: ", "(root)", "  Children: ", "Alpha-v2, Alpha-v3"]
            );
            assert_eq!(
                texts_of(&lines[2]),
                vec![
                    " LR: ",
                    "0.00100",
                    "  epsilon: ",
                    "0.5000",
                    "  Episodes: ",
                    "0",
                    "  Total: ",
                    "0.0"
                ]
            );
        }
        _ => panic!("an agent is selected"),
    }
    app.selected_id = Some("Alpha-v3".to_string());
    match app.detail_panel(&r, &text) {
        DetailPanel::Lines { lines, .. } => {
            assert_eq!(
                texts_of(&lines[1]),
                vec![" Parent: ", "Alpha", "  Children: ", "none"]
            );
        }
        _ => panic!("an agent is selected"),
    }
    app.selected_id = Some("Nobody".to_string());
    assert!(matches!(app.detail_panel(&r, &text), DetailPanel::NotFound));
}

#[test]
fn toggling_twice_changes_nothing() {
    let r = family();
    let mut app = App::new(&r);
    let closed = draw(&mut app, &r);
    app.on_key(false, Key::Down);
    app.on_key(false, Key::Enter);
    let open = draw(&mut app, &r);
    assert_ne!(open.len(), closed.len());
    app.on_key(false, Key::Enter);
    assert_eq!(draw(&mut app, &r).len(), closed.len());
    assert!(app.tree_state.opened().is_empty());
    assert_eq!(app.tree_state.selected(), &["Alpha".to_string()]);
}

#[test]
fn moving_opens_nothing() {
    let r = family();
    let mut app = App::new(&r);
    draw(&mut app, &r);
    app.on_key(false, Key::Down);
    app.on_key(false, Key::Right);
    let opened = app.tree_state.opened().clone();
    draw(&mut app, &r);
    for key in [Key::Down, Key::Down, Key::Up, Key::Down] {
        app.on_key(false, key);
        assert_eq!(app.tree_state.opened(), &opened);
    }
}

#[test]
fn handles_last() {
    let mut r = AgentRegistry::new();
    let h = add(&mut r, "A", 0, None);
    r.record_episode(h, double(1.0), double(0.4));
    add(&mut r, "A", 1, Some("A"));
    add(&mut r, "B", 1, Some("A"));
    r.update_best(&"A".to_string(), double(2.0), double(0.0));
    r.record_episode(h, double(5.0), double(0.3));
    let a = r.agent(h);
    assert_eq!((a.id.as_str(), a.generation), ("A", 0));
    assert_eq!(a.episodes, vec![double(1.0), double(5.0)]);
    assert_eq!(a.children, vec!["A".to_string()]);
    assert_eq!(a.status, AgentStatus::Training);
    assert_eq!(r.agent(1).children, vec!["B".to_string()]);
    assert_eq!(r.agent(1).status, AgentStatus::Best);
}

#[test]
fn curves_never_have_six_hundred_points() {
    for len in [0usize, 1, 299, 300, 599, 600, 601, 899, 900, 1199, 5000, 100_000] {
        let data: Vec<(usize, Double)> = (0..len).map(|i| (i, double(0.0))).collect();
        let thin = sample(&data);
        assert!(thin.len() < 600);
        assert_eq!(thin.first(), data.first());
    }
}

#[test]
fn a_lesser_reward_makes_nobody_the_best() {
    let mut r = AgentRegistry::new();
    add(&mut r, "A", 0, None);
    add(&mut r, "B", 0, None);
    r.update_best(&"A".to_string(), double(100.0), double(0.0));
    for total in [50.0, 100.0, f64::NAN] {
        r.update_best(&"B".to_string(), double(total), double(1.0));
        assert_eq!(r.best_agent_id(), &Some("A".to_string()));
        assert_eq!(r.agent(0).status, AgentStatus::Best);
        assert_eq!(r.agent(1).status, AgentStatus::Training);
        assert_eq!(r.best_rewards().len(), 1);
    }
    r.update_best(&"A".to_string(), double(30.0), double(2.0));
    assert_eq!(r.best_rewards().len(), 2);
    r.update_best(&"B".to_string(), double(99.0), double(3.0));
    assert_eq!(r.best_agent_id(), &Some("A".to_string()));
    r.update_best(&"B".to_string(), double(100.5), double(4.0));
    assert_eq!(r.best_agent_id(), &Some("B".to_string()));
    assert_eq!(r.agent(0).status, AgentStatus::Training);
    assert_eq!(r.agent(1).status, AgentStatus::Best);
}

#[test]
fn finished_agents_stop_training() {
    let mut r = AgentRegistry::new();
    let h = add(&mut r, "A", 0, None);
    assert!(r.goes_on(h));
    for _ in 0..152 {
        r.record_episode(h, double(1.0), double(0.05));
    }
    assert!(!r.goes_on(h));
    r.update_best(&"A".to_string(), double(1.0), double(1.0));
    assert!(r.goes_on(h));
}

#[test]
fn labels_are_broken_into_lines() {
    for (name, lines) in [
        ("x\r\ny", 2),
        ("x\ny\n\nz", 4),
        ("x\ry", 1),
        ("x", 1),
    ] {
        let mut r = AgentRegistry::new();
        add(&mut r, name, 0, None);
        let items = App::new(&r).build_tree_items(&r, &texts(&r)).unwrap();
        assert_eq!(items.len(), 1);
        assert_eq!(items[0].height(), lines, "{:?}", name);
    }
}

#[test]
fn rounds_of_training_keep_their_bounds() {
    let mut r = AgentRegistry::new();
    let h = add(&mut r, "A", 0, None);
    assert!(r.train(h, double(-80.0), double(0.4)));
    assert!(r.train(h, double(259.5), double(0.01)));
    assert!(r.train(h, double(f64::NAN), double(f64::NAN)));
    assert!(r.train(h, double(-50.0), double(0.05)));
    let rewards: Vec<f64> = r.agent(h).episodes.iter().map(|e| f64::from_bits(e.bits)).collect();
    assert_eq!(rewards, vec![-50.0, 259.5, -50.0, -50.0]);
    assert_eq!(r.agent(h).epsilon, double(0.05));
}

#[test]
fn decay_never_raises_the_exploration_rate() {
    let mut r = AgentRegistry::new();
    let h = add(&mut r, "A", 0, None);
    let mut eps: f64 = 0.5;
    for _ in 0..2000 {
        let went_on = r.train(h, double(1.0), double(eps * 0.998));
        let now = f64::from_bits(r.agent(h).epsilon.bits);
        assert!(now <= eps && now >= 0.05);
        if went_on {
            assert_eq!(now, (eps * 0.998).max(0.05));
        }
        eps = now;
    }
    assert_eq!(r.agent(h).status, AgentStatus::Finished);
}

#[test]
fn a_finished_agent_trains_no_more() {
    let mut r = AgentRegistry::new();
    let h = add(&mut r, "A", 0, None);
    for _ in 0..152 {
        assert!(r.train(h, double(1.0), double(0.05)));
    }
    assert_eq!(r.agent(h).status, AgentStatus::Finished);
    for _ in 0..3 {
        assert!(!r.train(h, double(9.0), double(0.9)));
    }
    assert_eq!(r.agent(h).episodes.len(), 152);
    assert_eq!(r.agent(h).epsilon, double(0.05));
}
