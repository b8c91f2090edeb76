use solvers::claw::ClawGame;

#[test]
fn test_game_1() {
    let input = "\nButton A: X+94, Y+34\nButton B: X+22, Y+67\nPrize: X=8400, Y=5400\n        ";
    let game = ClawGame::parse(&input).unwrap();
    assert_eq!(game.min_token_cost(), Some(280));
}

#[test]
fn test_game_2() {
    let input = "\nButton A: X+26, Y+66\nButton B: X+67, Y+21\nPrize: X=12748, Y=12176\n        ";
    let game = ClawGame::parse(&input).unwrap();
    assert_eq!(game.min_token_cost(), None);
}

#[test]
fn test_game_3() {
    let input = "\nButton A: X+17, Y+86\nButton B: X+84, Y+37\nPrize: X=7870, Y=6450\n        ";
    let game = ClawGame::parse(&input).unwrap();
    assert_eq!(game.min_token_cost(), Some(200));
}

#[test]
fn test_game_4() {
    let input = "\nButton A: X+69, Y+23\nButton B: X+27, Y+71\nPrize: X=18641, Y=10279\n        ";
    let game = ClawGame::parse(&input).unwrap();
    assert_eq!(game.min_token_cost(), None);
}
