use ordered_collections::tree::{DIM, GREEN, RED, RESET};
use ordered_collections::VanEmdeBoas;

fn line(min: usize, max: usize, universe: usize) -> String {
    format!(
        "{}─►{} {}{}⮯ {}{}⮭ {}({}){}\n",
        DIM, RESET, RED, min, GREEN, max, DIM, universe, RESET
    )
}

fn branch(prefix: &str, connector: &str, tag: &str) -> String {
    format!("{}{}{}{}{}", DIM, prefix, connector, RESET, tag)
}

#[test]
fn colour_codes() {
    assert_eq!(DIM, "\x1b[;2m");
    assert_eq!(RED, "\x1b[;31m");
    assert_eq!(GREEN, "\x1b[;32m");
    assert_eq!(RESET, "\x1b[;0m");
}

#[test]
fn an_empty_tree_is_an_empty_line() {
    assert_eq!(VanEmdeBoas::new(16).print(), "\n");
}

#[test]
fn a_leaf_is_one_line() {
    let mut tree = VanEmdeBoas::new(2);
    tree.insert(1);
    assert_eq!(tree.print(), line(1, 1, 2));
    tree.insert(0);
    assert_eq!(tree.print(), line(0, 1, 2));
}

#[test]
fn a_single_key_shows_empty_branches() {
    let mut tree = VanEmdeBoas::new(4);
    tree.insert(3);
    let expected = [
        line(3, 3, 4),
        branch("   ", "├─", "su"),
        "\n".to_string(),
        branch("   ", "├─", "00"),
        "\n".to_string(),
        branch("   ", "╰─", "01"),
        "\n".to_string(),
    ]
    .concat();
    assert_eq!(tree.print(), expected);
}

#[test]
fn two_keys_fill_the_summary_and_one_cluster() {
    let mut tree = VanEmdeBoas::new(4);
    tree.insert(1);
    tree.insert(2);
    let expected = [
        line(1, 2, 4),
        branch("   ", "├─", "su"),
        line(1, 1, 2),
        branch("   ", "├─", "00"),
        "\n".to_string(),
        branch("   ", "╰─", "01"),
        line(0, 0, 2),
    ]
    .concat();
    assert_eq!(tree.print(), expected);
}

#[test]
fn branches_of_branches_stand_further_in() {
    let mut tree = VanEmdeBoas::new(16);
    tree.insert(1);
    tree.insert(14);
    let text = tree.print();
    let mut expected = line(1, 14, 16);
    // summary: a tree over four keys that holds the cluster number 3
    expected += &branch("   ", "├─", "su");
    expected += &line(3, 3, 4);
    expected += &branch("   │      ", "├─", "su");
    expected += "\n";
    expected += &branch("   │      ", "├─", "00");
    expected += "\n";
    expected += &branch("   │      ", "╰─", "01");
    expected += "\n";
    for tag in ["00", "01", "10"] {
        expected += &branch("   ", "├─", tag);
        expected += "\n";
    }
    // cluster 3 holds the local key 2
    expected += &branch("   ", "╰─", "11");
    expected += &line(2, 2, 4);
    expected += &branch("          ", "├─", "su");
    expected += "\n";
    expected += &branch("          ", "├─", "00");
    expected += "\n";
    expected += &branch("          ", "╰─", "01");
    expected += "\n";
    assert_eq!(text, expected);
}

#[test]
fn numbers_are_written_in_decimal_and_tags_in_binary() {
    let mut tree = VanEmdeBoas::new(1024);
    tree.insert(1000);
    tree.insert(205);
    let text = tree.print();
    assert!(text.starts_with(&line(205, 1000, 1024)));
    for tag in ["00", "01", "10", "11", "100", "1010", "11111"] {
        assert!(text.contains(&format!("{}{}", RESET, tag)), "tag {}", tag);
    }
    assert!(!text.contains(&format!("{}100000", RESET)));
}
