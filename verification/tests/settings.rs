use flappy_bird::dqn_tracker_main::agents::{
    pace_millis, FINISHING_EPSILON, LEAST_EPSILON, LEAST_REWARD, MINUS_INFINITY,
};
use flappy_bird::ml::agent_utils::{AgentDefault, AgentStats, GameStateFeatures, RewardPrizes};
use flappy_bird::ml::optimizer_epsilon;
use flappy_bird::ml::pruner::{EntropyTracker, PopulationManager, PruningConfig};
use flappy_bird::player::{BirdInventory, Gravity, Score, Velocity};

#[test]
fn prizes() {
    let p = RewardPrizes::default();
    assert_eq!(f32::from_bits(p.dying.bits), -10.0);
    assert_eq!(f32::from_bits(p.pipe_death.bits), -1.0);
    assert_eq!(f32::from_bits(p.pipe_cleared.bits), 30.0);
    assert_eq!(f32::from_bits(p.alive.bits), 1.0);
    assert_eq!(p.jump_cost.bits, 0.0f32.to_bits());
}

#[test]
fn learning_settings() {
    let d = AgentDefault::default();
    assert_eq!(f32::from_bits(d.gamma.bits), 0.95);
    assert_eq!(f64::from_bits(d.learning_rate.bits), 5e-3);
    assert_eq!(f32::from_bits(optimizer_epsilon().bits), 1e-7);
}

#[test]
fn pruning_settings() {
    for cfg in [PruningConfig::default(), PopulationManager::new().cfg] {
        assert_eq!(f32::from_bits(cfg.entropy_floor.bits), 0.1);
        assert_eq!(f32::from_bits(cfg.entropy_ceiling.bits), 0.9);
        assert_eq!(f32::from_bits(cfg.entropy_alpha.bits), 0.1);
        assert_eq!(f32::from_bits(cfg.score_floor.bits), 1.0);
        assert_eq!(f32::from_bits(cfg.score_alpha.bits), 0.05);
        assert_eq!(cfg.warmup_episodes, 30);
        assert_eq!(cfg.patience, 10);
        assert_eq!(f32::from_bits(cfg.noise_scale.bits), 0.01);
    }
}

struct Fixed;

impl EntropyTracker for Fixed {
    fn summarize(&self) -> String {
        "H = 0.5".to_string()
    }
}

#[test]
fn entropy_trackers_can_be_summarized() {
    assert_eq!(Fixed.summarize(), "H = 0.5");
}

#[test]
fn fresh_statistics() {
    let s = AgentStats::new(None);
    assert_eq!(f32::from_bits(s.entropy_ema.bits), 1.0);
    assert_eq!(s.total_score.bits, 0);
    assert_eq!(s.score_ema.bits, 0);
    assert_eq!(s.entropy_sum.bits, 0);
    assert_eq!((s.episodes, s.total_episodes), (0, 0));
    assert_eq!((s.entropy_violation_streak, s.score_violation_streak), (0, 0));
    assert_eq!(AgentStats::new(Some(12)).total_episodes, 12);
}

#[test]
fn features_start_at_zero() {
    let z = GameStateFeatures::default();
    assert!(z.to_array().iter().all(|s| s.bits == 0));
}

#[test]
fn defaults_of_birds() {
    assert_eq!(f32::from_bits(Gravity::default().0.bits), 1000.0);
    assert_eq!(Velocity::default().0.bits, 0);
    assert_eq!(Score::default().0, 0);
    assert!(BirdInventory::default().0.is_empty());
}

#[test]
fn training_settings() {
    assert_eq!(f64::from_bits(FINISHING_EPSILON), 0.06);
    assert_eq!(f64::from_bits(MINUS_INFINITY), f64::NEG_INFINITY);
    assert_eq!(f64::from_bits(LEAST_EPSILON), 0.05);
    assert_eq!(f64::from_bits(LEAST_REWARD), -50.0);
    assert_eq!(pace_millis(0), 80);
    assert_eq!(pace_millis(2), 140);
    assert_eq!(pace_millis(u32::MAX), 80 + 30 * (u32::MAX as u64));
}
