use flappy_bird::dqn_tracker::view::panels as tracker_panels;
use flappy_bird::dqn_tracker_main::view::panels as dashboard_panels;
use flappy_bird::layout::{halves, Area, Axis};

fn portion(start: u32, size: u32, percent: u32) -> u32 {
    (100 * start + size * percent + 50) / 100
}

fn check(axis: Axis, start: u16, size: u16, percent: u16) {
    let area = match axis {
        Axis::Horizontal => Area { x: start, y: 3, width: size, height: 11 },
        Axis::Vertical => Area { x: 3, y: start, width: 11, height: size },
    };
    let (a, b) = halves(axis, percent, area);
    let cut = portion(start as u32, size as u32, percent as u32);
    let (first, second, across) = match axis {
        Axis::Horizontal => (
            (a.x, a.width),
            (b.x, b.width),
            [(a.y, a.height), (b.y, b.height)],
        ),
        Axis::Vertical => (
            (a.y, a.height),
            (b.y, b.height),
            [(a.x, a.width), (b.x, b.width)],
        ),
    };
    assert_eq!(across, [(3, 11), (3, 11)]);
    assert_eq!(first.0, start);
    assert_eq!(first.0 as u32 + first.1 as u32, cut, "{} {} {}", start, size, percent);
    assert_eq!(second.0 as u32, cut);
    assert_eq!(
        second.0 as u32 + second.1 as u32,
        start as u32 + size as u32
    );
}

#[test]
fn halves_meet_at_the_nearest_cell() {
    for percent in [30, 35, 50, 65] {
        for size in 0..240 {
            check(Axis::Horizontal, 0, size, percent);
            check(Axis::Vertical, 0, size, percent);
        }
    }
}

#[test]
fn halves_meet_wherever_the_area_starts() {
    for percent in [0, 1, 33, 50, 65, 99, 100] {
        for start in [1u16, 2, 7, 50, 333] {
            for size in [0u16, 1, 2, 3, 5, 10, 80, 99, 101, 250] {
                check(Axis::Horizontal, start, size, percent);
                check(Axis::Vertical, start, size, percent);
            }
        }
    }
}

#[test]
fn halves_of_a_huge_screen() {
    for size in [6000u16, 20_000, 65_000, 65_535] {
        check(Axis::Horizontal, 0, size, 35);
        check(Axis::Vertical, 0, size, 50);
    }
    check(Axis::Horizontal, 60_000, 5_535, 30);
}

#[test]
fn areas_beyond_the_last_cell_stay_within() {
    let area = Area { x: 65_000, y: 0, width: 65_000, height: 10 };
    let (a, b) = halves(Axis::Horizontal, 50, area);
    for part in [a, b] {
        assert!(part.x >= area.x);
        assert!(part.x as u32 + part.width as u32 <= 65_535);
    }
}

#[test]
fn the_trackers_panels() {
    let p = tracker_panels(Area { x: 0, y: 0, width: 100, height: 40 });
    assert_eq!(p.tree, Area { x: 0, y: 0, width: 30, height: 40 });
    assert_eq!(p.entropy, Area { x: 30, y: 0, width: 70, height: 20 });
    assert_eq!(p.reward, Area { x: 30, y: 20, width: 70, height: 20 });
}

#[test]
fn the_dashboards_panels() {
    let p = dashboard_panels(Area { x: 0, y: 0, width: 100, height: 60 });
    assert_eq!(p.tree, Area { x: 0, y: 0, width: 35, height: 39 });
    assert_eq!(p.best, Area { x: 0, y: 39, width: 35, height: 21 });
    assert_eq!(p.detail, Area { x: 35, y: 0, width: 65, height: 7 });
    assert_eq!(p.rewards, Area { x: 35, y: 7, width: 65, height: 27 });
    assert_eq!(p.sums, Area { x: 35, y: 34, width: 65, height: 26 });
}

#[test]
fn the_dashboards_column_at_all_heights() {
    let heights = (0u16..700).chain([1000, 4095, 9999, 30_001, 65_000]);
    for height in heights {
        for y in [0u16, 1, 2, 35, 501] {
            let p = dashboard_panels(Area { x: 0, y, width: 100, height });
            let detail = height.min(7);
            let rest = height - detail;
            let rewards = (rest + 1) / 2;
            assert_eq!((p.detail.y, p.detail.height), (y, detail), "{} {}", y, height);
            assert_eq!(
                (p.rewards.y, p.rewards.height),
                (y + detail, rewards),
                "{} {}",
                y,
                height
            );
            assert_eq!(
                (p.sums.y, p.sums.height),
                (y + detail + rewards, rest - rewards),
                "{} {}",
                y,
                height
            );
        }
    }
}
