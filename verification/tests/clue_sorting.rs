use crossword_layout::clue_sorting::sort;
use crossword_layout::placement::BaseClue;

fn pair(clue: &str, answer: &str) -> BaseClue {
    BaseClue { clue: clue.into(), answer: answer.into() }
}

#[test]
fn orders_correctly() {
    let input = vec![
        BaseClue {
            clue: "c".into(),
            answer: "a".into(),
        },
        BaseClue {
            clue: "b".into(),
            answer: "aa".into(),
        },
        BaseClue {
            clue: "a".into(),
            answer: "ab".into(),
        },
        BaseClue {
            clue: "d".into(),
            answer: "bbb".into(),
        },
    ];

    let sorted = sort(input.clone());
    let expected = vec![
        BaseClue {
            clue: "d".into(),
            answer: "bbb".into(),
        },
        BaseClue {
            clue: "b".into(),
            answer: "aa".into(),
        },
        BaseClue {
            clue: "a".into(),
            answer: "ab".into(),
        },
        BaseClue {
            clue: "c".into(),
            answer: "a".into(),
        },
    ];

    assert_eq!(sorted, expected);
}

#[test]
fn sort_of_nothing_is_nothing() {
    assert_eq!(sort(vec![]), vec![]);
}

#[test]
fn sort_keeps_the_order_of_equal_lengths() {
    let sorted = sort(vec![
        pair("1", "xx"),
        pair("2", "yyy"),
        pair("3", "zz"),
        pair("4", "www"),
        pair("5", "vv"),
    ]);
    let clues: Vec<&str> = sorted.iter().map(|c| c.clue.as_str()).collect();
    assert_eq!(clues, vec!["2", "4", "1", "3", "5"]);
}

#[test]
fn sort_leaves_an_ordered_list_as_it_is() {
    let input = vec![pair("a", "long"), pair("b", "mid"), pair("c", "mad"), pair("d", "s")];
    assert_eq!(sort(input.clone()), input);
}

#[test]
fn sort_counts_letters_not_bytes() {
    // Three letters of two bytes each against four letters of one byte.
    let sorted = sort(vec![pair("short", "\u{e9}\u{e9}\u{e9}"), pair("long", "abcd")]);
    assert_eq!(sorted[0].clue, "long");
    assert_eq!(sorted[1].clue, "short");
}
