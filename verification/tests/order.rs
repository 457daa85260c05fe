use wordfreq::order::{compare, Rank};

fn rank_by_std(a: &str, b: &str) -> Rank {
    if a < b {
        Rank::Before
    } else if a > b {
        Rank::After
    } else {
        Rank::Same
    }
}

#[test]
fn compare_equal_words() {
    assert_eq!(compare("dog", "dog"), Rank::Same);
    assert_eq!(compare("", ""), Rank::Same);
}

#[test]
fn compare_by_first_difference() {
    assert_eq!(compare("apple", "apply"), Rank::Before);
    assert_eq!(compare("apply", "apple"), Rank::After);
    assert_eq!(compare("zebra", "apple"), Rank::After);
}

#[test]
fn compare_prefix_comes_first() {
    assert_eq!(compare("dog", "dogs"), Rank::Before);
    assert_eq!(compare("dogs", "dog"), Rank::After);
    assert_eq!(compare("", "a"), Rank::Before);
    assert_eq!(compare("a", ""), Rank::After);
}

#[test]
fn compare_upper_case_comes_before_lower_case() {
    assert_eq!(compare("The", "the"), Rank::Before);
    assert_eq!(compare("Zebra", "apple"), Rank::Before);
    assert_eq!(compare("the", "The"), Rank::After);
}

#[test]
fn compare_goes_by_code_point() {
    assert_eq!(compare("z", "\u{00E9}"), Rank::Before);
    assert_eq!(compare("\u{00E9}", "\u{4E2D}"), Rank::Before);
    assert_eq!(compare("\u{FFFD}", "\u{10000}"), Rank::Before);
    assert_eq!(compare("\u{1F600}", "\u{E000}"), Rank::After);
}

#[test]
fn compare_agrees_with_std() {
    let samples = [
        "", "a", "A", "aa", "ab", "b", "The", "the", "dog", "dogs", "Dog", "zebra", "apple",
        "\u{00E9}", "e\u{0301}", "\u{4E2D}\u{6587}", "\u{D7FF}", "\u{E000}", "\u{FFFF}",
        "\u{10000}", "\u{10FFFF}", "\u{1F600}", "a\u{1F600}", "a\u{E000}", "0", "9", "10", "~",
    ];
    for a in samples {
        for b in samples {
            assert_eq!(compare(a, b), rank_by_std(a, b), "{:?} against {:?}", a, b);
        }
    }
}

#[test]
fn compare_is_antisymmetric_on_samples() {
    let samples = ["", "a", "b", "ab", "ba", "B", "\u{00E9}"];
    for a in samples {
        for b in samples {
            let there = compare(a, b);
            let back = compare(b, a);
            match there {
                Rank::Before => assert_eq!(back, Rank::After),
                Rank::After => assert_eq!(back, Rank::Before),
                Rank::Same => {
                    assert_eq!(back, Rank::Same);
                    assert_eq!(a, b);
                }
            }
        }
    }
}
