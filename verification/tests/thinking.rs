use flappy_bird::ml::agent_utils::{Action, GameStateFeatures};
use flappy_bird::ml::multiagent::AgentManager;
use flappy_bird::player::{Bird, BirdInventory};
use flappy_bird::plugins::replacement::{
    can_compare, run_forwards_and_optims, stage_replacement,
};
use flappy_bird::plugins::think::{
    no_birds_in_main_system, note_dead, observe, think, DeadBirdRegistry, Measure, PipeEdgeInfo,
    PipeSight, RewardBase,
};
use flappy_bird::scalar::Single;
use flappy_bird::ReplacementState;

fn single(v: f32) -> Single {
    Single { bits: v.to_bits() }
}

fn pipe(x: f32, edge_y: f32, front: f32) -> PipeSight {
    let right = x + 10.0;
    PipeSight {
        x: single(x),
        right: single(right),
        lead: single(front - right),
        edge_y: single(edge_y),
        remaining_x: single(right - front),
    }
}

fn measure() -> Measure {
    Measure {
        y: single(1.5),
        speed: single(0.25),
        rear: single(-12.0),
        size: single(25.0),
    }
}

fn beyond(y: f32) -> PipeEdgeInfo {
    PipeEdgeInfo { edge_y: single(y), remaining_x: single(-42.5) }
}

fn bird(uid: u32) -> Bird {
    Bird::new(false, uid).0
}

fn state(y: f32, top: f32, bottom: f32) -> GameStateFeatures {
    GameStateFeatures {
        bird_y: single(y),
        next_pipe_top_y: single(top),
        next_pipe_bottom_y: single(bottom),
        ..GameStateFeatures::default()
    }
}

#[test]
fn nearest_pipes_come_first() {
    let tops = vec![pipe(200.0, 1.0, 12.0), pipe(50.0, 2.0, 12.0), pipe(-40.0, 3.0, 12.0)];
    let bottoms = vec![pipe(90.0, -4.0, 12.0)];
    let s = observe(measure(), &tops, &bottoms, beyond(99.0), beyond(-99.0));
    assert_eq!(s.bird_y, single(1.5));
    assert_eq!(s.bird_speed, single(0.25));
    assert_eq!(s.next_pipe_top_y, single(2.0));
    assert_eq!(s.remaining_top_x, single(48.0));
    assert_eq!(s.second_top_y, single(1.0));
    assert_eq!(s.next_pipe_bottom_y, single(-4.0));
    assert_eq!(s.remaining_bot_x, single(88.0));
    assert_eq!(s.second_bot_y, single(-99.0));
}

#[test]
fn pipes_at_one_place_keep_their_order() {
    let tops = vec![pipe(50.0, 1.0, 12.0), pipe(50.0, 2.0, 12.0)];
    let s = observe(measure(), &tops, &vec![], beyond(99.0), beyond(-99.0));
    assert_eq!((s.next_pipe_top_y, s.second_top_y), (single(1.0), single(2.0)));
}

#[test]
fn a_pipe_well_past_is_skipped() {
    let mut m = measure();
    m.rear = single(-60.0);
    let tops = vec![pipe(-30.0, 1.0, 12.0), pipe(50.0, 2.0, 12.0), pipe(90.0, 3.0, 12.0)];
    let s = observe(m, &tops, &tops[..1].to_vec(), beyond(99.0), beyond(-99.0));
    assert_eq!(s.next_pipe_top_y, single(2.0));
    assert_eq!(s.second_top_y, single(3.0));
    assert_eq!(s.next_pipe_bottom_y, single(-99.0));
    assert_eq!(s.remaining_bot_x, single(-42.5));
}

#[test]
fn without_pipes_the_stand_ins_are_seen() {
    let s = observe(measure(), &vec![], &vec![], beyond(99.0), beyond(-99.0));
    assert_eq!((s.next_pipe_top_y, s.second_top_y), (single(99.0), single(99.0)));
    assert_eq!((s.next_pipe_bottom_y, s.second_bot_y), (single(-99.0), single(-99.0)));
    assert_eq!((s.remaining_top_x, s.remaining_bot_x), (single(-42.5), single(-42.5)));
}

#[test]
fn a_frame_is_one_step() {
    let mut m = AgentManager::new();
    let s = state(0.0, 10.0, -10.0);
    let t = think(&mut m, &bird(3), s);
    assert!(t.created && !t.jump && t.question.is_some());
    assert_eq!(t.action, Action::DoNothing);
    assert_eq!(t.reward.base, RewardBase::Alive { score: 0 });
    assert!(t.reward.in_gap && !t.reward.cleared && !t.reward.jumped);
    m.record_step(3, t.action, single(1.01), single(1.01));
    m.complete_inference(3, t.question.unwrap().number, single(0.0), single(1.0));
    let t = think(&mut m, &bird(3), s);
    assert!(!t.created && t.jump && t.reward.jumped);
    assert_eq!(t.question.unwrap().input.to_vec(), s.to_array().to_vec());
    m.record_step(3, t.action, single(0.5), single(1.51));
    let episode = &m.inner[&3].state.episode;
    assert_eq!(episode.len(), 2);
    assert_eq!((episode[0].action, episode[1].action), (Action::DoNothing, Action::Jump));
    assert_eq!((episode[1].state, episode[1].reward), (s, single(0.5)));
}

#[test]
fn a_cleared_pipe_is_paid_once() {
    let mut m = AgentManager::new();
    let s = state(0.0, 10.0, -10.0);
    let scored = Bird { score: 4, ..bird(1) };
    let t = think(&mut m, &scored, s);
    assert!(t.reward.cleared);
    assert_eq!(t.reward.base, RewardBase::Alive { score: 0 });
    let t = think(&mut m, &scored, s);
    assert!(!t.reward.cleared);
    assert_eq!(t.reward.base, RewardBase::Alive { score: 4 });
    let t = think(&mut m, &bird(1), s);
    assert!(!t.reward.cleared);
    assert_eq!(t.reward.base, RewardBase::Alive { score: 4 });
}

#[test]
fn the_dead_do_not_jump() {
    let mut m = AgentManager::new();
    let s = state(0.0, 10.0, -10.0);
    let first = think(&mut m, &bird(1), s).question.unwrap();
    m.complete_inference(1, first.number, single(0.0), single(1.0));
    let dead = Bird { dead: true, ..bird(1) };
    let t = think(&mut m, &dead, s);
    assert_eq!(t.action, Action::Jump);
    assert!(!t.jump && t.reward.jumped);
    assert_eq!(t.reward.base, RewardBase::Dying);
    let t = think(&mut m, &Bird { pipe_death: true, ..dead }, s);
    assert_eq!(t.reward.base, RewardBase::PipeDeath);
    assert!(t.question.is_none());
}

#[test]
fn the_gap_is_between_the_edges() {
    for (y, top, bottom, inside) in [
        (0.0, 10.0, -10.0, true),
        (0.0, -10.0, 10.0, true),
        (10.0, 10.0, -10.0, false),
        (-10.0, 10.0, -10.0, false),
        (11.0, 10.0, -10.0, false),
        (0.0, f32::NAN, -10.0, false),
        (f32::NAN, 10.0, -10.0, false),
    ] {
        let mut m = AgentManager::new();
        let t = think(&mut m, &bird(1), state(y, top, bottom));
        let lo: f32 = f32::min(top, bottom);
        let hi: f32 = f32::max(top, bottom);
        assert_eq!(t.reward.in_gap, y > lo && y < hi);
        assert_eq!(t.reward.in_gap, inside);
    }
}

#[test]
fn the_dead_are_noted() {
    let mut r = DeadBirdRegistry::default();
    note_dead(&mut r, &vec![bird(1), Bird { dead: true, ..bird(2) }]);
    note_dead(&mut r, &vec![Bird { dead: true, ..bird(2) }, Bird { dead: true, ..bird(5) }]);
    let mut uids: Vec<u32> = r.0.iter().copied().collect();
    uids.sort();
    assert_eq!(uids, vec![2, 5]);
}

#[test]
fn nobody_flies_or_waits() {
    assert!(no_birds_in_main_system(&vec![], &BirdInventory(vec![])));
    assert!(!no_birds_in_main_system(&vec![bird(1)], &BirdInventory(vec![])));
    assert!(!no_birds_in_main_system(&vec![], &BirdInventory(vec![1])));
}

fn flock(scores: &[(u32, f32)]) -> AgentManager {
    let mut m = AgentManager::new();
    for (uid, total) in scores {
        m.bind_agent(*uid, GameStateFeatures::default());
        m.record_step(*uid, Action::Jump, single(*total), single(*total));
    }
    m
}

#[test]
fn the_dead_come_back_after_a_replacement() {
    let m = flock(&[(0, -3.0), (1, 8.0), (2, 7.5)]);
    let mut dead = DeadBirdRegistry::default();
    note_dead(&mut dead, &(0..3).map(|u| Bird { dead: true, ..bird(u) }).collect());
    let mut slot: ReplacementState<Vec<u32>> = ReplacementState::Idle;
    let mut inventory = BirdInventory(vec![]);
    let started = run_forwards_and_optims(&mut dead, &m, &mut slot, &mut inventory).unwrap();
    assert_eq!(started.best, 1);
    let mut others = started.others.clone();
    others.sort();
    assert_eq!(others, vec![0, 2]);
    assert!(matches!(slot, ReplacementState::InFlight));
    assert_eq!(dead.0.len(), 3);
    for _ in 0..4 {
        assert!(run_forwards_and_optims(&mut dead, &m, &mut slot, &mut inventory).is_none());
        assert!(matches!(slot, ReplacementState::InFlight));
        assert!(inventory.0.is_empty());
        assert_eq!(dead.0.len(), 3);
    }
    stage_replacement(&mut slot, started.snapshot);
    assert!(run_forwards_and_optims(&mut dead, &m, &mut slot, &mut inventory).is_none());
    assert!(matches!(slot, ReplacementState::Idle));
    assert!(dead.0.is_empty());
    inventory.0.sort();
    assert_eq!(inventory.0, vec![0, 1, 2]);
}

#[test]
fn a_lone_agent_is_the_best() {
    let m = flock(&[(9, f32::NAN)]);
    let mut dead = DeadBirdRegistry::default();
    let mut slot: ReplacementState<Vec<u32>> = ReplacementState::Idle;
    let mut inventory = BirdInventory(vec![]);
    let started = run_forwards_and_optims(&mut dead, &m, &mut slot, &mut inventory).unwrap();
    assert_eq!(started.best, 9);
    assert!(started.others.is_empty() && started.snapshot.is_empty());
}

#[test]
fn late_answers_are_lost() {
    let mut m = AgentManager::new();
    let s = state(0.0, 10.0, -10.0);
    let first = think(&mut m, &bird(7), s).question.unwrap();
    m.unbind_agent(7);
    let t = think(&mut m, &bird(7), s);
    assert!(t.created);
    let second = t.question.unwrap();
    assert_ne!(first.number, second.number);
    m.complete_inference(7, first.number, single(0.0), single(1.0));
    let t = think(&mut m, &bird(7), s);
    assert_eq!(t.action, Action::DoNothing);
    assert!(t.question.is_none());
    m.complete_inference(7, second.number, single(0.0), single(1.0));
    m.complete_inference(7, second.number, single(1.0), single(0.0));
    let t = think(&mut m, &bird(7), s);
    assert_eq!(t.action, Action::Jump);
    assert!(t.question.is_some());
}

#[test]
fn answers_find_the_bird_that_asked() {
    let mut m = AgentManager::new();
    let s = state(0.0, 10.0, -10.0);
    let one = think(&mut m, &bird(1), s).question.unwrap();
    let two = think(&mut m, &bird(2), s).question.unwrap();
    m.complete_inference(1, two.number, single(0.0), single(1.0));
    assert_eq!(think(&mut m, &bird(1), s).action, Action::DoNothing);
    m.complete_inference(1, one.number, single(0.0), single(1.0));
    assert_eq!(think(&mut m, &bird(1), s).action, Action::Jump);
    assert_eq!(think(&mut m, &bird(2), s).action, Action::DoNothing);
}

#[test]
fn scores_that_can_be_compared() {
    assert!(!can_compare(&flock(&[])));
    assert!(can_compare(&flock(&[(1, f32::NAN)])));
    assert!(can_compare(&flock(&[(1, 2.0), (2, -1.0)])));
    assert!(!can_compare(&flock(&[(1, 2.0), (2, f32::NAN)])));
}
