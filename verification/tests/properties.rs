use wordfreq::counter::{process_chunk, total_chars, try_process_chunk};
use wordfreq::report::render;
use wordfreq::table::FrequencyTable;

fn sample_lines() -> Vec<String> {
    let text = [
        "The quick brown fox jumps over the lazy dog",
        "",
        "The dog barks",
        "   ",
        "the fox, the Fox and the FOX",
        "dog\tdog\u{3000}dog  cat",
        "\u{00E9}t\u{00E9} na\u{00EF}ve \u{00E9}t\u{00E9}",
        "a a a a a a a a a a a",
    ];
    text.iter().map(|l| l.to_string()).collect()
}

fn listing(table: &FrequencyTable) -> Vec<(String, usize)> {
    let mut entries = Vec::new();
    let mut i = 0;
    while let Some((word, count)) = table.entry(i) {
        entries.push((word.to_string(), count));
        i += 1;
    }
    entries
}

fn count_by_std(lines: &[String], word: &str) -> usize {
    lines.iter().map(|l| l.split_whitespace().filter(|w| *w == word).count()).sum()
}

#[test]
fn emitted_words_are_strictly_ascending() {
    let lines = sample_lines();
    let mut table = FrequencyTable::new();
    process_chunk(&lines, &mut table);
    let entries = listing(&table);
    assert_eq!(entries.len(), table.len());
    for pair in entries.windows(2) {
        assert!(pair[0].0.as_bytes() < pair[1].0.as_bytes());
    }
    let out = render(&table);
    assert_eq!(out.len(), entries.len());
    for (line, entry) in out.iter().zip(entries.iter()) {
        assert_eq!(*line, format!("{}: {}", entry.0, entry.1));
    }
}

#[test]
fn counts_are_the_numbers_of_occurrences() {
    let lines = sample_lines();
    let mut table = FrequencyTable::new();
    process_chunk(&lines, &mut table);
    let entries = listing(&table);
    for (word, count) in entries.iter() {
        assert!(*count >= 1);
        assert_eq!(*count, count_by_std(&lines, word));
        assert_eq!(table.get(word), Some(count));
    }
    let total: usize = entries.iter().map(|e| e.1).sum();
    let words: usize = lines.iter().map(|l| l.split_whitespace().count()).sum();
    assert_eq!(total, words);
    assert_eq!(table.get("the"), Some(&4));
    assert_eq!(table.get("The"), Some(&2));
    assert_eq!(table.get("dog"), Some(&5));
    assert_eq!(table.get("a"), Some(&11));
    assert_eq!(table.get("\u{00E9}t\u{00E9}"), Some(&2));
    assert_eq!(table.get("fox,"), Some(&1));
    assert_eq!(table.get("fox"), Some(&1));
}

#[test]
fn batch_size_makes_no_difference() {
    let lines = sample_lines();
    let mut whole = FrequencyTable::new();
    process_chunk(&lines, &mut whole);
    let mut size = 1;
    while size <= lines.len() + 1 {
        let mut table = FrequencyTable::new();
        for chunk in lines.chunks(size) {
            process_chunk(chunk, &mut table);
        }
        assert_eq!(listing(&table), listing(&whole), "batches of {}", size);
        assert_eq!(render(&table), render(&whole), "batches of {}", size);
        size += 1;
    }
}

#[test]
fn empty_input_gives_no_output_lines() {
    let lines: Vec<String> = Vec::new();
    let mut table = FrequencyTable::new();
    for chunk in lines.chunks(10000) {
        process_chunk(chunk, &mut table);
    }
    assert_eq!(render(&table).len(), 0);
}

#[test]
fn folding_two_batches_is_folding_their_concatenation() {
    let lines = sample_lines();
    let mut cut = 0;
    while cut <= lines.len() {
        let (a, b) = lines.split_at(cut);
        let mut one_by_one = FrequencyTable::new();
        process_chunk(a, &mut one_by_one);
        process_chunk(b, &mut one_by_one);
        let mut joined: Vec<String> = a.to_vec();
        joined.extend_from_slice(b);
        let mut at_once = FrequencyTable::new();
        process_chunk(&joined, &mut at_once);
        assert_eq!(listing(&one_by_one), listing(&at_once), "cut at {}", cut);
        cut += 1;
    }
}

#[test]
fn folding_into_a_table_that_holds_words_adds_to_its_counts() {
    let mut table = FrequencyTable::new();
    process_chunk(&[String::from("x y x")], &mut table);
    process_chunk(&[String::from("y z"), String::from("x")], &mut table);
    assert_eq!(
        listing(&table),
        vec![(String::from("x"), 3), (String::from("y"), 2), (String::from("z"), 1)]
    );
}

#[test]
fn order_of_the_words_makes_no_difference_to_the_counts() {
    let mut forward = FrequencyTable::new();
    process_chunk(&[String::from("a b c"), String::from("b c"), String::from("c")], &mut forward);
    let mut backward = FrequencyTable::new();
    process_chunk(&[String::from("c"), String::from("c b"), String::from("c b a")], &mut backward);
    assert_eq!(listing(&forward), listing(&backward));
}

#[test]
fn empty_batch_and_empty_lines_change_nothing() {
    let mut table = FrequencyTable::new();
    process_chunk(&[String::from("kept")], &mut table);
    process_chunk(&[], &mut table);
    process_chunk(&[String::new(), String::from(" \t "), String::new()], &mut table);
    assert_eq!(listing(&table), vec![(String::from("kept"), 1)]);
}

#[test]
fn fox_and_dog_have_ten_distinct_words() {
    let chunk = vec![
        String::from("The quick brown fox jumps over the lazy dog"),
        String::from("The dog barks"),
    ];
    let mut table = FrequencyTable::new();
    process_chunk(&chunk, &mut table);
    assert_eq!(
        listing(&table),
        vec![
            (String::from("The"), 2),
            (String::from("barks"), 1),
            (String::from("brown"), 1),
            (String::from("dog"), 2),
            (String::from("fox"), 1),
            (String::from("jumps"), 1),
            (String::from("lazy"), 1),
            (String::from("over"), 1),
            (String::from("quick"), 1),
            (String::from("the"), 1),
        ]
    );
}

#[test]
fn sorted_unique_keys_of_two_lines_of_animals() {
    let chunk = vec![String::from("zebra apple cat"), String::from("dog elephant bear")];
    let mut table = FrequencyTable::new();
    process_chunk(&chunk, &mut table);
    assert_eq!(table.keys(), vec!["apple", "bear", "cat", "dog", "elephant", "zebra"]);
}

#[test]
fn total_chars_counts_characters_not_bytes() {
    assert_eq!(total_chars(&[]), Some(0));
    assert_eq!(total_chars(&[String::new()]), Some(0));
    assert_eq!(total_chars(&[String::from("ab"), String::from(" c ")]), Some(5));
    assert_eq!(total_chars(&[String::from("\u{00E9}t\u{00E9}"), String::from("\u{1F600}")]), Some(4));
}

#[test]
fn try_process_chunk_folds_like_process_chunk() {
    let lines = sample_lines();
    let mut plain = FrequencyTable::new();
    process_chunk(&lines, &mut plain);
    let mut tried = FrequencyTable::new();
    assert!(try_process_chunk(&lines, &mut tried));
    assert_eq!(listing(&tried), listing(&plain));
    assert!(try_process_chunk(&lines, &mut tried));
    assert_eq!(tried.get("dog"), Some(&10));
    assert_eq!(tried.total(), Some(2 * plain.total().unwrap()));
}

#[test]
fn try_process_chunk_of_nothing_changes_nothing() {
    let mut table = FrequencyTable::new();
    assert!(try_process_chunk(&[], &mut table));
    assert!(table.is_empty());
    assert!(try_process_chunk(&[String::from("kept kept")], &mut table));
    assert!(try_process_chunk(&[String::from("  ")], &mut table));
    assert_eq!(listing(&table), vec![(String::from("kept"), 2)]);
}
