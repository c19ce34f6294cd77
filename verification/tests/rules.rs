use flappy_bird::game::{
    best_bird, bird_respawn, check_collisions, check_in_bounds, collide, controls, despawn_deads,
    have_room, on_bird_jump, on_score_point, respawn_on_endgame, spawn_birds, toggle_pause, Fall,
};
use flappy_bird::player::{Bird, BirdInventory, PointsGate, Score, SpawnPoint, Velocity};
use flappy_bird::scalar::Single;

fn single(v: f32) -> Single {
    Single { bits: v.to_bits() }
}

fn bird(uid: u32) -> Bird {
    Bird::new(false, uid).0
}

fn gates(n: usize) -> Vec<PointsGate> {
    (0..n).map(|_| PointsGate { has_scored: vec![] }).collect()
}

const USUAL: SpawnPoint = SpawnPoint { divisor: 4, height: 0 };

#[test]
fn birds_hatch_alive() {
    let (b, place) = Bird::new(false, 7);
    assert_eq!(b, Bird { uid: 7, dead: false, score: 0, pipe_death: false });
    assert_eq!(place, USUAL);
}

#[test]
fn random_places_are_within_their_ranges() {
    let mut divisors = [false; 5];
    let mut heights = [false; 6];
    for i in 0..2000 {
        let (b, place) = Bird::new(true, i);
        assert_eq!(b.uid, i);
        assert!((1..=4).contains(&place.divisor));
        assert!((0..=5).contains(&place.height));
        divisors[place.divisor as usize] = true;
        heights[place.height as usize] = true;
    }
    assert!(divisors[1..].iter().all(|d| *d));
    assert!(heights.iter().all(|h| *h));
}

#[test]
fn leaving_the_canvas_is_deadly() {
    let (low, high) = (single(-190.0), single(190.0));
    for (y, dead) in [
        (-190.5, true),
        (-190.0, false),
        (0.0, false),
        (190.0, false),
        (191.0, true),
        (f32::NAN, false),
    ] {
        let mut b = bird(1);
        let fall = check_in_bounds(&mut b, false, single(y), low, high);
        assert_eq!(b.dead, dead);
        assert!(!b.pipe_death);
        assert_eq!(fall, if dead { Some(Fall::BirdDeath) } else { None });
        let mut b = bird(1);
        let fall = check_in_bounds(&mut b, true, single(y), low, high);
        assert_eq!(fall, if dead { Some(Fall::EndGame) } else { None });
    }
    let mut b = Bird { dead: true, ..bird(1) };
    assert_eq!(check_in_bounds(&mut b, false, single(0.0), low, high), None);
    assert!(b.dead);
}

#[test]
fn pipes_kill_birds_but_not_the_player() {
    let mut g = gates(0);
    let mut b = bird(1);
    assert_eq!(collide(&mut b, false, &vec![true, false, true], &mut g, &vec![]), 2);
    assert!(b.dead && b.pipe_death);
    let mut b = bird(1);
    assert_eq!(collide(&mut b, true, &vec![true, true], &mut g, &vec![]), 0);
    assert!(!b.dead && !b.pipe_death);
    let mut b = bird(1);
    assert_eq!(collide(&mut b, false, &vec![false], &mut g, &vec![]), 0);
    assert_eq!(b, bird(1));
}

#[test]
fn a_gap_scores_once_for_each_bird() {
    let mut g = gates(2);
    let mut birds = vec![bird(5), bird(8)];
    for frame in 0..3 {
        let told = check_collisions(
            &mut birds,
            &vec![false, false],
            &vec![vec![], vec![]],
            &mut g,
            &vec![vec![true, frame > 0], vec![false, true]],
        );
        assert_eq!(told, vec![0, 0]);
    }
    assert_eq!((birds[0].score, birds[1].score), (2, 1));
    assert_eq!(g[0].has_scored, vec![5]);
    assert_eq!(g[1].has_scored, vec![8, 5]);
}

#[test]
fn birds_of_one_number_share_their_points() {
    let mut g = gates(1);
    let mut birds = vec![bird(5), bird(5)];
    check_collisions(
        &mut birds,
        &vec![false, false],
        &vec![vec![false], vec![true]],
        &mut g,
        &vec![vec![true], vec![true]],
    );
    assert_eq!((birds[0].score, birds[1].score), (1, 0));
    assert_eq!(g[0].has_scored, vec![5]);
    assert!(!birds[0].dead && birds[1].dead);
}

#[test]
fn the_best_score_is_written_out() {
    assert_eq!(best_bird(&vec![]), None);
    let birds = vec![
        Bird { score: 3, ..bird(1) },
        Bird { score: 12, dead: true, ..bird(2) },
        Bird { score: 7, ..bird(3) },
    ];
    assert_eq!(best_bird(&birds), Some("12".to_string()));
    assert_eq!(best_bird(&vec![bird(1)]), Some("0".to_string()));
}

#[test]
fn the_dead_leave() {
    let birds = vec![
        Bird { dead: true, ..bird(1) },
        bird(2),
        Bird { dead: true, ..bird(3) },
    ];
    assert_eq!(despawn_deads(&birds), vec![0, 2]);
    assert!(despawn_deads(&vec![]).is_empty());
}

#[test]
fn birds_respawn_when_the_way_is_clear() {
    let mut inv = BirdInventory(vec![4, 2, 9]);
    assert!(bird_respawn(&mut inv, &vec![false, true], &vec![]).is_empty());
    assert!(bird_respawn(&mut inv, &vec![], &vec![true]).is_empty());
    assert_eq!(inv.0, vec![4, 2, 9]);
    let hatched = bird_respawn(&mut inv, &vec![false], &vec![false, false]);
    assert_eq!(hatched, vec![(bird(4), USUAL), (bird(2), USUAL), (bird(9), USUAL)]);
    assert!(inv.0.is_empty());
    assert!(bird_respawn(&mut inv, &vec![], &vec![]).is_empty());
}

#[test]
fn five_birds_start() {
    let birds = spawn_birds();
    let uids: Vec<u32> = birds.iter().map(|b| b.0.uid).collect();
    assert_eq!(uids, vec![0, 1, 2, 3, 4]);
    assert!(birds.iter().all(|b| b.1 == USUAL));
}

#[test]
fn the_players_game_ends() {
    let mut score = Score(7);
    assert_eq!(respawn_on_endgame(false, &mut score), None);
    assert_eq!(score.0, 7);
    assert_eq!(respawn_on_endgame(true, &mut score), Some(USUAL));
    assert_eq!(score.0, 0);
    on_score_point(&mut score);
    assert_eq!(score.0, 1);
}

#[test]
fn mouse_and_space_bar() {
    assert!(controls(true, true, false));
    assert!(controls(true, false, true));
    assert!(!controls(true, false, false));
    assert!(!controls(false, true, true));
    assert!(toggle_pause(false, true));
    assert!(!toggle_pause(true, true));
    assert!(toggle_pause(true, false));
    assert!(!toggle_pause(false, false));
}

#[test]
fn a_jump_sets_the_speed() {
    let mut v = Velocity(single(-512.5));
    on_bird_jump(&mut v);
    assert_eq!(f32::from_bits(v.0.bits), 300.0);
}

#[test]
fn a_second_check_changes_nothing() {
    let mut g = gates(3);
    let mut birds = vec![bird(5), bird(8), bird(9)];
    let players = vec![false, true, false];
    let pipes = vec![vec![true, false], vec![true, true], vec![false, false]];
    let hits = vec![
        vec![true, false, true],
        vec![true, true, false],
        vec![false, false, false],
    ];
    assert!(have_room(&birds, &g, &hits));
    let told = check_collisions(&mut birds, &players, &pipes, &mut g, &hits);
    assert_eq!(told, vec![1, 0, 0]);
    let scores: Vec<u32> = birds.iter().map(|b| b.score).collect();
    assert_eq!(scores, vec![2, 2, 0]);
    let first = birds.clone();
    let noted: Vec<Vec<u32>> = g.iter().map(|g| g.has_scored.clone()).collect();
    assert_eq!(noted, vec![vec![5, 8], vec![8], vec![5]]);
    assert!(have_room(&birds, &g, &hits));
    check_collisions(&mut birds, &players, &pipes, &mut g, &hits);
    assert_eq!(birds, first);
    let again: Vec<Vec<u32>> = g.iter().map(|g| g.has_scored.clone()).collect();
    assert_eq!(again, noted);
}

#[test]
fn a_full_score_may_fly_on() {
    let full = Bird { score: u32::MAX, ..bird(1) };
    let nearly = Bird { score: u32::MAX - 1, ..bird(2) };
    let mut g = vec![
        PointsGate { has_scored: vec![1] },
        PointsGate { has_scored: vec![] },
    ];
    let mut birds = vec![full, nearly];
    let hits = vec![vec![true, false], vec![false, true]];
    assert!(have_room(&birds, &g, &hits));
    assert!(!have_room(&birds, &g, &vec![vec![false, true], vec![false, false]]));
    assert!(!have_room(&birds, &g, &vec![vec![false, false], vec![true, true]]));
    let twins = vec![nearly, nearly];
    assert!(have_room(&twins, &g, &vec![vec![false, true], vec![false, true]]));
    check_collisions(
        &mut birds,
        &vec![false, false],
        &vec![vec![], vec![]],
        &mut g,
        &hits,
    );
    assert_eq!((birds[0].score, birds[1].score), (u32::MAX, u32::MAX));
}
