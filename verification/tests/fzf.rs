use clipboardwatcher::fzf::calculate_bonus_score;
use clipboardwatcher::fzf::calculate_fzf_score;
use clipboardwatcher::fzf::best_fzf_score;
use clipboardwatcher::fzf::NO_SCORE;

#[test]
fn test_exact_match() {
    let text = String::from("hello");
    let query = String::from("hello");
    let scores = calculate_fzf_score(&text, &query);

    // Exact match should have a high score
    let max_score = scores.iter().max().unwrap();
    assert!(*max_score > 0, "Exact match should have positive score");
}

#[test]
fn test_subsequence_match() {
    let text = String::from("hello_world");
    let query = String::from("hw");
    let scores = calculate_fzf_score(&text, &query);

    // Should match 'h' at index 0 and 'w' at index 6
    let max_score = scores.iter().max().unwrap();
    assert!(*max_score > 0, "Subsequence match should have positive score");
}

#[test]
fn test_boundary_bonus() {
    let text1 = String::from("hello_world");
    let text2 = String::from("helloworld");
    let query = String::from("hw");

    let scores1 = calculate_fzf_score(&text1, &query);
    let scores2 = calculate_fzf_score(&text2, &query);

    let max_score1 = scores1.iter().max().unwrap();
    let max_score2 = scores2.iter().max().unwrap();

    println!("text1: 'hello_world' -> max_score: {}", max_score1);
    println!("text2: 'helloworld' -> max_score: {}", max_score2);
    println!("scores1: {:?}", scores1);
    println!("scores2: {:?}", scores2);

    // Boundary match should score higher
    assert!(
        max_score1 > max_score2,
        "Match at word boundary should score higher than in middle of word. text1={}, text2={}",
        max_score1,
        max_score2
    );
}

#[test]
fn test_camel_case_bonus() {
    let text = String::from("helloWorld");
    let query = String::from("hW");
    let scores = calculate_fzf_score(&text, &query);

    // Should match 'h' at 0 and 'W' at 5 with camelCase bonus
    let max_score = scores.iter().max().unwrap();
    assert!(*max_score > 0, "CamelCase match should have positive score");
}

#[test]
fn test_no_match() {
    let text = String::from("hello");
    let query = String::from("xyz");
    let scores = calculate_fzf_score(&text, &query);

    // No match should result in all NO_SCORE
    assert!(
        scores.iter().all(|&s| s == NO_SCORE),
        "Non-matching query should have all NO_SCORE"
    );
}

#[test]
fn test_gap_penalty() {
    let text = String::from("abcdef");
    let query = String::from("ace");
    let scores = calculate_fzf_score(&text, &query);

    // Should match but with gap penalties
    let max_score = scores.iter().max().unwrap();
    assert!(*max_score > 0, "Should match with gap penalty");

    // Compare with consecutive match
    let text2 = String::from("ace");
    let scores2 = calculate_fzf_score(&text2, &query);
    let max_score2 = scores2.iter().max().unwrap();

    assert!(
        max_score2 > max_score,
        "Consecutive match should score higher than match with gaps"
    );
}

#[test]
fn test_initial_position_bonus() {
    let text1 = String::from("hello");
    let text2 = String::from("xhello");
    let query = String::from("h");

    let scores1 = calculate_fzf_score(&text1, &query);
    let scores2 = calculate_fzf_score(&text2, &query);

    let max_score1 = scores1.iter().max().unwrap();
    let max_score2 = scores2.iter().max().unwrap();

    // Initial position should have bonus
    assert!(
        max_score1 > max_score2,
        "Match at initial position should score higher"
    );
}

#[test]
fn test_exact_row_values() {
    // "ab" against itself: 'a' matches at 0 with the initial bonus, 'b'
    // matches right after it with no gap and no bonus.
    let text = String::from("ab");
    let query = String::from("ab");
    let scores = calculate_fzf_score(&text, &query);
    assert_eq!(scores, vec![NO_SCORE, 25]);
}

#[test]
fn test_bonus_vector_values() {
    // Initial position 5; 'W' after lowercase 'o' earns the camel-case 2.
    let text = String::from("helloWorld");
    let bonus = calculate_bonus_score(&text);
    assert_eq!(bonus, vec![5, 0, 0, 0, 0, 2, 0, 0, 0, 0]);
}

#[test]
fn test_boundary_bonus_vector() {
    // Characters after '/', '_', '-', '.', and space earn the boundary 3.
    let text = String::from("a/b_c-d.e f");
    let bonus = calculate_bonus_score(&text);
    assert_eq!(bonus, vec![5, 0, 3, 0, 3, 0, 3, 0, 3, 0, 3]);
}

#[test]
fn test_empty_query_all_sentinel() {
    let text = String::from("hello");
    let query = String::from("");
    let scores = calculate_fzf_score(&text, &query);
    assert_eq!(scores, vec![NO_SCORE; 5]);
}

#[test]
fn test_missing_char_all_sentinel() {
    // 'x' appears nowhere in the text, so no alignment of "hx" exists even
    // though 'h' matches.
    let text = String::from("hello");
    let query = String::from("hx");
    let scores = calculate_fzf_score(&text, &query);
    assert!(scores.iter().all(|&s| s == NO_SCORE));
}

#[test]
fn test_case_insensitive_match() {
    let text = String::from("HELLO");
    let query = String::from("hello");
    let scores = calculate_fzf_score(&text, &query);
    let max_score = scores.iter().max().unwrap();
    assert!(*max_score > 0);
}

#[test]
fn test_best_fzf_score_matches_row_max() {
    let text = String::from("hello_world");
    let query = String::from("hw");
    let scores = calculate_fzf_score(&text, &query);
    let max_score = *scores.iter().max().unwrap();
    assert_eq!(best_fzf_score(&text, &query), max_score);
    assert_eq!(best_fzf_score(&text, &String::from("zq")), NO_SCORE);
}
