use aoc2022::rock_paper_scissors::{total_score, Game, GameResult, Shape};

#[test]
fn codes_read_shapes() {
    assert!(matches!(Shape::from_plain_code("A"), Ok(Shape::Rock)));
    assert!(matches!(Shape::from_plain_code("B"), Ok(Shape::Paper)));
    assert!(matches!(Shape::from_plain_code("C"), Ok(Shape::Scissors)));
    assert!(Shape::from_plain_code("D").is_err());
    assert!(Shape::from_plain_code("AA").is_err());
    assert!(Shape::from_plain_code("").is_err());
    assert!(matches!(Shape::from_secret_code("X"), Ok(Shape::Rock)));
    assert!(matches!(Shape::from_secret_code("Y"), Ok(Shape::Paper)));
    assert!(matches!(Shape::from_secret_code("Z"), Ok(Shape::Scissors)));
    assert!(Shape::from_secret_code("A").is_err());
}

#[test]
fn result_codes_and_scores() {
    assert_eq!(GameResult::from_secret_code("X"), Ok(GameResult::Lose));
    assert_eq!(GameResult::from_secret_code("Y"), Ok(GameResult::Draw));
    assert_eq!(GameResult::from_secret_code("Z"), Ok(GameResult::Win));
    assert!(GameResult::from_secret_code("W").is_err());
    assert_eq!(GameResult::Lose.score(), 0);
    assert_eq!(GameResult::Draw.score(), 3);
    assert_eq!(GameResult::Win.score(), 6);
    assert_eq!(Shape::Rock.score(), 1);
    assert_eq!(Shape::Paper.score(), 2);
    assert_eq!(Shape::Scissors.score(), 3);
}

#[test]
fn expected_result_picks_move() {
    let m = Shape::from_expected_result(&GameResult::Win, &Shape::Rock).unwrap();
    assert_eq!(m, Shape::Paper);
    let m = Shape::from_expected_result(&GameResult::Lose, &Shape::Rock).unwrap();
    assert_eq!(m, Shape::Scissors);
    let m = Shape::from_expected_result(&GameResult::Draw, &Shape::Scissors).unwrap();
    assert_eq!(m, Shape::Scissors);
}

#[test]
fn rounds_of_the_guide() {
    let g = Game::from_input("A Y").unwrap();
    assert_eq!(g.player_2, Shape::Rock);
    assert_eq!(g.player_2_result(), GameResult::Draw);
    assert_eq!(g.player_2_score(), 4);
    let g = Game::from_input("B X").unwrap();
    assert_eq!(g.player_2_score(), 1);
    let g = Game::from_input("  C   Z ").unwrap();
    assert_eq!(g.player_2_score(), 7);
    let total: i32 = ["A Y", "B X", "C Z"]
        .iter()
        .map(|l| Game::from_input(l).unwrap().player_2_score())
        .sum();
    assert_eq!(total, 12);
}

#[test]
fn bad_rounds() {
    assert!(Game::from_input("A").is_err());
    assert!(Game::from_input("A Y Z").is_err());
    assert!(Game::from_input("D Y").is_err());
    assert!(Game::from_input("A Q").is_err());
}

#[test]
fn player_two_results() {
    let g = Game { player_1: Shape::Scissors, player_2: Shape::Rock };
    assert_eq!(g.player_2_result(), GameResult::Win);
    let g = Game { player_1: Shape::Paper, player_2: Shape::Rock };
    assert_eq!(g.player_2_result(), GameResult::Lose);
    assert_eq!(g.player_2_score(), 1);
}

#[test]
fn guide_totals() {
    let lines: Vec<String> = ["A Y", "B X", "C Z"].iter().map(|l| l.to_string()).collect();
    assert_eq!(total_score(&lines), Ok(12));
    assert_eq!(total_score(&Vec::new()), Ok(0));
    let bad: Vec<String> = ["A Y", "B"].iter().map(|l| l.to_string()).collect();
    assert!(total_score(&bad).is_err());
}
