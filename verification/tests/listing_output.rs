use agate::listing::{listing_lines, FsEntry};

fn entry(name: &str, is_dir: bool) -> FsEntry {
    FsEntry { name: name.to_string(), is_dir }
}

#[test]
fn listing_is_sorted_and_hides_dotted_names() {
    let entries = vec![
        entry("b.gmi", false),
        entry("a.gmi", false),
        entry(".hidden", false),
        entry("c", true),
    ];
    let lines = listing_lines(&entries);
    assert_eq!(
        lines,
        vec![b"=> a.gmi\n".to_vec(), b"=> b.gmi\n".to_vec(), b"=> c/\n".to_vec()]
    );
}

#[test]
fn changed_names_carry_the_plain_name() {
    let entries = vec![entry("a b.txt", false)];
    let lines = listing_lines(&entries);
    assert_eq!(lines, vec![b"=> a%20b.txt a b.txt\n".to_vec()]);
}

#[test]
fn listing_of_nothing_is_empty() {
    let lines = listing_lines(&Vec::new());
    assert!(lines.is_empty());
}

#[test]
fn enumeration_order_does_not_matter() {
    let one = vec![entry("b.gmi", false), entry("a.gmi", false), entry("c", true)];
    let other = vec![entry("c", true), entry("b.gmi", false), entry("a.gmi", false)];
    assert_eq!(listing_lines(&one), listing_lines(&other));
}
