use wordfreq::counter::process_chunk;
use wordfreq::table::FrequencyTable;

fn table_of(lines: &[&str]) -> FrequencyTable {
    let chunk: Vec<String> = lines.iter().map(|l| l.to_string()).collect();
    let mut table = FrequencyTable::new();
    process_chunk(&chunk, &mut table);
    table
}

#[test]
fn new_table_is_empty() {
    let table = FrequencyTable::new();
    assert!(table.is_empty());
    assert_eq!(table.len(), 0);
    assert_eq!(table.keys(), Vec::<String>::new());
    assert_eq!(table.get("anything"), None);
    assert_eq!(table.entry(0), None);
}

#[test]
fn get_of_a_word_that_was_not_counted() {
    let table = table_of(&["one two three"]);
    assert_eq!(table.get("four"), None);
    assert_eq!(table.get(""), None);
    assert_eq!(table.get("on"), None);
    assert_eq!(table.get("ones"), None);
    assert_eq!(table.get("One"), None);
}

#[test]
fn get_is_case_sensitive() {
    let table = table_of(&["The THE the the"]);
    assert_eq!(table.get("The"), Some(&1));
    assert_eq!(table.get("THE"), Some(&1));
    assert_eq!(table.get("the"), Some(&2));
    assert_eq!(table.len(), 3);
}

#[test]
fn entries_come_in_ascending_order() {
    let table = table_of(&["pear apple fig", "apple fig apple"]);
    assert_eq!(table.len(), 3);
    assert_eq!(table.entry(0), Some(("apple", 3)));
    assert_eq!(table.entry(1), Some(("fig", 2)));
    assert_eq!(table.entry(2), Some(("pear", 1)));
    assert_eq!(table.entry(3), None);
    assert_eq!(table.entry(usize::MAX), None);
}

#[test]
fn keys_hold_each_word_once() {
    let table = table_of(&["b a b a c a", "c b a"]);
    assert_eq!(table.keys(), vec!["a", "b", "c"]);
}

#[test]
fn keys_are_strictly_ascending_for_a_mixed_input() {
    let table = table_of(&[
        "delta Alpha \u{00E9}cole gamma alpha Beta",
        "beta 10 9 zeta Zeta alpha \u{4E2D}\u{6587}",
    ]);
    let keys = table.keys();
    assert_eq!(keys.len(), table.len());
    for pair in keys.windows(2) {
        assert!(pair[0] < pair[1], "{:?} before {:?}", pair[0], pair[1]);
    }
    assert_eq!(
        keys,
        vec![
            "10",
            "9",
            "Alpha",
            "Beta",
            "Zeta",
            "alpha",
            "beta",
            "delta",
            "gamma",
            "zeta",
            "\u{00E9}cole",
            "\u{4E2D}\u{6587}"
        ]
    );
}

#[test]
fn words_that_arrive_in_descending_order_are_listed_ascending() {
    let table = table_of(&["i h g f e d c b a"]);
    assert_eq!(table.keys(), vec!["a", "b", "c", "d", "e", "f", "g", "h", "i"]);
}

#[test]
fn many_distinct_words_are_all_found_again() {
    let mut line = String::new();
    let mut n = 0;
    while n < 500 {
        line.push_str(&format!("w{} ", (n * 7919) % 500));
        n += 1;
    }
    let table = table_of(&[line.as_str(), line.as_str()]);
    assert_eq!(table.len(), 500);
    let mut k = 0;
    while k < 500 {
        assert_eq!(table.get(&format!("w{}", k)), Some(&2));
        k += 1;
    }
    let keys = table.keys();
    for pair in keys.windows(2) {
        assert!(pair[0] < pair[1]);
    }
}

#[test]
fn total_counts_every_occurrence() {
    assert_eq!(FrequencyTable::new().total(), Some(0));
    assert_eq!(table_of(&["a b a", "", "c a"]).total(), Some(5));
    assert_eq!(table_of(&["one"]).total(), Some(1));
}
