use breach_solver::codes::{accept_code, char_whitelist, clean_text, contains_code, correct_code};
use breach_solver::decimal::decimal_string;
use breach_solver::types::{PuzzleMove, PuzzleSolution};

fn codes() -> Vec<String> {
    vec!["1C", "55", "7A", "BD", "E9", "FF"]
        .into_iter()
        .map(String::from)
        .collect()
}

#[test]
fn numbers_in_base_ten() {
    assert_eq!(decimal_string(0), "0");
    assert_eq!(decimal_string(7), "7");
    assert_eq!(decimal_string(10), "10");
    assert_eq!(decimal_string(109), "109");
    assert_eq!(decimal_string(4294967295), "4294967295");
    assert_eq!(decimal_string(usize::MAX), usize::MAX.to_string());
}

#[test]
fn solution_is_written_in_two_lines() {
    let solution = PuzzleSolution {
        buffer: vec!["1C".to_string(), "5\"5".to_string()],
        moves: vec![PuzzleMove::Column(0), PuzzleMove::Row(13), PuzzleMove::NoMove],
    };
    assert_eq!(
        solution.to_string(),
        "buffer: [\"1C\", \"5\\\"5\"]\nmoves: [Column(0), Row(13), None]\n"
    );
    let empty = PuzzleSolution { buffer: vec![], moves: vec![] };
    assert_eq!(empty.to_string(), "buffer: []\nmoves: []\n");
}

#[test]
fn recognized_text_is_trimmed_and_raised() {
    assert_eq!(clean_text("bd \n"), "BD");
    assert_eq!(clean_text("  e9\t"), "  E9");
    assert_eq!(clean_text("7A"), "7A");
    assert_eq!(clean_text(" \n"), "");
}

#[test]
fn common_misreadings_are_corrected() {
    assert_eq!(correct_code("BO".to_string()), "BD");
    assert_eq!(correct_code("C".to_string()), "1C");
    assert_eq!(correct_code("TA".to_string()), "7A");
    assert_eq!(correct_code("BD".to_string()), "BD");
    assert_eq!(correct_code("B0".to_string()), "B0");
    assert_eq!(correct_code("".to_string()), "");
}

#[test]
fn valid_codes_are_accepted() {
    assert_eq!(accept_code("E9".to_string(), &codes()), Ok("E9".to_string()));
    assert_eq!(accept_code("BO".to_string(), &codes()), Ok("BD".to_string()));
    assert_eq!(accept_code("C".to_string(), &codes()), Ok("1C".to_string()));
}

#[test]
fn invalid_codes_are_reported() {
    assert_eq!(
        accept_code("XX".to_string(), &codes()),
        Err("An invalid code \"XX\" was recognized".to_string())
    );
    // a corrected text is reported as corrected
    let few = vec!["55".to_string()];
    assert_eq!(
        accept_code("TA".to_string(), &few),
        Err("An invalid code \"7A\" was recognized".to_string())
    );
    assert_eq!(
        accept_code("".to_string(), &codes()),
        Err("An invalid code \"\" was recognized".to_string())
    );
}

#[test]
fn codes_are_looked_up() {
    assert!(contains_code(&codes(), &"FF".to_string()));
    assert!(!contains_code(&codes(), &"ff".to_string()));
    assert!(!contains_code(&vec![], &"FF".to_string()));
}

#[test]
fn whitelist_holds_each_character_once() {
    let whitelist = char_whitelist(&codes());
    assert_eq!(whitelist, "1C57ABDE9F");
    let mut chars: Vec<char> = whitelist.chars().collect();
    assert_eq!(chars.len(), 10);
    chars.sort();
    assert_eq!(chars, vec!['1', '5', '7', '9', 'A', 'B', 'C', 'D', 'E', 'F']);
    assert_eq!(char_whitelist(&vec![]), "");
    assert_eq!(char_whitelist(&vec!["AAA".to_string(), "A".to_string()]), "A");
}
