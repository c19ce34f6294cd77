use flappy_bird::ml::agent_utils::{Action, AgentState, GameStateFeatures};
use flappy_bird::ml::model::FlappyGradientAgent;
use flappy_bird::ml::multiagent::AgentManager;
use flappy_bird::scalar::Single;

fn single(v: f32) -> Single {
    Single { bits: v.to_bits() }
}

fn features(base: f32) -> GameStateFeatures {
    GameStateFeatures {
        bird_y: single(base),
        bird_speed: single(base + 1.0),
        next_pipe_top_y: single(base + 2.0),
        next_pipe_bottom_y: single(base + 3.0),
        second_bot_y: single(base + 4.0),
        second_top_y: single(base + 5.0),
        remaining_bot_x: single(base + 6.0),
        remaining_top_x: single(base + 7.0),
    }
}

fn row(base: f32) -> Vec<Single> {
    (0..8).map(|i| single(base + i as f32)).collect()
}

#[test]
fn features_come_in_the_networks_order() {
    assert_eq!(features(10.0).to_array().to_vec(), row(10.0));
}

#[test]
fn a_state_is_taken_once() {
    let mut s = AgentState::new();
    assert!(s.current_gamestate.is_none() && !s.is_dead && s.episode.is_empty() && s.score == 0);
    s.set_state_features(Some(features(1.0)));
    assert_eq!(s.get_state_features(), features(1.0));
    assert!(s.current_gamestate.is_none());
    s.set_state_features(Some(features(2.0)));
    s.set_state_features(None);
    assert!(s.current_gamestate.is_none());
}

#[test]
fn one_question_at_a_time() {
    let mut a = FlappyGradientAgent::new();
    a.state.set_state_features(Some(features(0.0)));
    let (action, question) = a.select_action();
    assert_eq!(action, Action::DoNothing);
    assert_eq!(question.unwrap().to_vec(), row(0.0));
    for _ in 0..3 {
        let (action, question) = a.select_action();
        assert_eq!(action, Action::DoNothing);
        assert!(question.is_none());
    }
    a.complete_inference(single(0.2), single(0.7));
    assert_eq!(a.pending_action, Some(Action::Jump));
    a.state.set_state_features(Some(features(5.0)));
    let (action, question) = a.select_action();
    assert_eq!(action, Action::Jump);
    assert_eq!(question.unwrap().to_vec(), row(5.0));
    assert_eq!(a.pending_action, None);
}

#[test]
fn the_latest_answer_counts() {
    let mut a = FlappyGradientAgent::new();
    a.state.set_state_features(Some(features(0.0)));
    a.select_action();
    a.complete_inference(single(0.1), single(0.9));
    assert_eq!(a.select_action().0, Action::Jump);
    assert_eq!(a.select_action().0, Action::Jump);
    a.complete_inference(single(0.9), single(0.1));
    assert_eq!(a.select_action().0, Action::DoNothing);
    a.complete_inference(single(0.5), single(0.5));
    assert_eq!(a.select_action().0, Action::DoNothing);
    a.complete_inference(single(0.5), single(f32::NAN));
    assert_eq!(a.select_action().0, Action::DoNothing);
    assert!(a.state.episode.is_empty());
}

#[test]
fn an_episode_becomes_a_batch() {
    let mut a = FlappyGradientAgent::new();
    assert!(a.policy_batch().is_none());
    for (base, action, reward) in [(0.0, Action::Jump, 1.5), (100.0, Action::DoNothing, -10.0)] {
        a.state.set_state_features(Some(features(base)));
        a.record_step(action, single(reward), single(reward + 1.0));
        assert!(a.state.current_gamestate.is_none());
    }
    assert_eq!(a.stats.total_score, single(-9.0));
    let batch = a.policy_batch().unwrap();
    assert_eq!(batch.steps, 2);
    let mut states = row(0.0);
    states.extend(row(100.0));
    assert_eq!(batch.states, states);
    assert_eq!(batch.actions, vec![1, 0]);
    let mask: Vec<f32> = batch.mask.iter().map(|s| f32::from_bits(s.bits)).collect();
    assert_eq!(mask, vec![0.0, 1.0, 1.0, 0.0]);
    assert_eq!(batch.rewards, vec![single(1.5), single(-10.0)]);
    a.clear_episode();
    assert!(a.policy_batch().is_none());
    assert_eq!(a.stats.total_score, single(-9.0));
}

#[test]
fn birds_keep_their_agents() {
    let mut m = AgentManager::new();
    assert!(m.bind_agent(3, features(0.0)));
    m.record_step(3, Action::Jump, single(2.0), single(2.0));
    assert!(!m.bind_agent(3, features(9.0)));
    assert_eq!(m.inner.len(), 1);
    let a = &m.inner[&3];
    assert_eq!(a.state.episode.len(), 1);
    assert_eq!(a.state.episode[0].state, features(0.0));
    assert_eq!(a.state.current_gamestate, Some(features(9.0)));
    m.complete_inference(3, 0, single(0.0), single(1.0));
    assert_eq!(m.inner[&3].pending_action, None);
    m.complete_inference(4, 0, single(0.0), single(1.0));
    assert_eq!(m.inner.len(), 1);
    m.unbind_agent(3);
    m.unbind_agent(3);
    assert!(m.inner.is_empty());
    assert!(m.bind_agent(3, features(1.0)));
    assert!(m.inner[&3].state.episode.is_empty());
}

#[test]
fn a_step_uses_up_the_state() {
    let mut a = FlappyGradientAgent::new();
    a.state.set_state_features(Some(features(1.0)));
    a.select_action();
    a.record_step(Action::Jump, single(1.0), single(1.0));
    assert!(a.state.current_gamestate.is_none());
    a.select_action();
    a.clear_episode();
    assert!(a.state.current_gamestate.is_none());
    a.state.set_state_features(Some(features(2.0)));
    a.record_step(Action::Jump, single(1.0), single(2.0));
    assert_eq!(a.state.episode.len(), 1);
    assert_eq!(a.state.episode[0].state, features(2.0));
}
