use flappy_bird::order::{sort_positions, Ordered};
use flappy_bird::scalar::Single;
use flappy_bird::text::{join, number, padded};

#[test]
fn numbers_are_written_in_decimal() {
    for n in [0u64, 7, 9, 10, 99, 100, 305, 4_294_967_295, u64::MAX] {
        assert_eq!(number(n), n.to_string());
    }
}

#[test]
fn padding_counts_characters() {
    assert_eq!(padded("12", 5), "   12");
    assert_eq!(padded("123456", 3), "123456");
    assert_eq!(padded("\u{2588}", 3), "  \u{2588}");
    assert_eq!(padded("", 0), "");
}

#[test]
fn joining_puts_the_separator_between() {
    let names = vec!["a".to_string(), "bc".to_string(), "d".to_string()];
    assert_eq!(join(&names, ", "), "a, bc, d");
    assert_eq!(join(&vec!["one".to_string()], ", "), "one");
    assert_eq!(join(&vec![], ", "), "");
}

#[test]
fn strings_are_ordered_by_code_point() {
    let names = ["", "a", "ab", "b", "B", "\u{e9}", "\u{10000}", "\u{ffff}", "zz"];
    for a in names {
        for b in names {
            assert_eq!(a.to_string().is_le(&b.to_string()), a <= b, "{} {}", a, b);
        }
    }
}

#[test]
fn sorting_is_stable() {
    let items: Vec<u64> = vec![5, 3, 5, 1, 3];
    let keep: Vec<usize> = vec![0, 1, 2, 4];
    assert_eq!(sort_positions(&items, &keep), vec![1, 4, 0, 2]);
    let xs: Vec<Single> = [2.0f32, -1.0, 2.0, 0.5]
        .iter()
        .map(|v| Single { bits: v.to_bits() })
        .collect();
    assert_eq!(sort_positions(&xs, &vec![0, 1, 2, 3]), vec![1, 3, 0, 2]);
}
