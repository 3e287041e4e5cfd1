use dice_command_parser::alias::parse_dice_as_value;
use dice_command_parser::dice::Dice;
use dice_command_parser::dice_roll::DiceRoll;
use dice_command_parser::error::ParserError;
use dice_command_parser::grammar::{parse_dice, parse_group, parse_groups};
use dice_command_parser::parse_line;

fn chars(i: &str) -> Vec<char> {
    i.chars().collect()
}

fn rest(s: &[char], e: usize) -> String {
    s[e..].iter().collect()
}

fn value_of(i: &str) -> Option<(String, Dice)> {
    let s = chars(i);
    parse_dice_as_value(&s, 0).map(|(d, e)| (rest(&s, e), d))
}

fn dice_of(i: &str) -> Option<(String, DiceRoll)> {
    let s = chars(i);
    parse_dice(&s, 0).map(|(r, e)| (rest(&s, e), r))
}

fn group_of(i: &str) -> Option<(String, Vec<DiceRoll>)> {
    let s = chars(i);
    parse_group(&s, 0).map(|(g, e)| (rest(&s, e), g))
}

fn empty() -> String {
    String::new()
}

fn message_of(r: Result<Vec<Vec<DiceRoll>>, ParserError>) -> String {
    match r {
        Err(ParserError::ParseError(m)) => m,
        other => panic!("expected a parse error, got {:?}", other),
    }
}

#[test]
fn test_parse_dice_as_value() {
    assert_eq!(value_of("green"), Some((empty(), Dice::Ability)));
    assert_eq!(value_of("g"), Some((empty(), Dice::Ability)));
    assert_eq!(value_of("ability"), Some((empty(), Dice::Ability)));
    assert_eq!(value_of("abil"), Some((empty(), Dice::Ability)));

    assert_eq!(value_of("challenge"), Some((empty(), Dice::Challenge)));
    assert_eq!(value_of("cha"), Some((empty(), Dice::Challenge)));
    assert_eq!(value_of("red"), Some((empty(), Dice::Challenge)));
    assert_eq!(value_of("r"), Some((empty(), Dice::Challenge)));

    assert_eq!(value_of("Proficiency"), Some((empty(), Dice::Proficiency)));
    assert_eq!(value_of("prof"), Some((empty(), Dice::Proficiency)));
    assert_eq!(value_of("yellow"), Some((empty(), Dice::Proficiency)));
    assert_eq!(value_of("y"), Some((empty(), Dice::Proficiency)));

    assert_eq!(value_of("difficulty"), Some((empty(), Dice::Difficulty)));
    assert_eq!(value_of("diff"), Some((empty(), Dice::Difficulty)));
    assert_eq!(value_of("purple"), Some((empty(), Dice::Difficulty)));
    assert_eq!(value_of("p"), Some((empty(), Dice::Difficulty)));

    assert_eq!(value_of("black"), Some((empty(), Dice::Setback)));
    assert_eq!(value_of("setback"), Some((empty(), Dice::Setback)));
    assert_eq!(value_of("k"), Some((empty(), Dice::Setback)));

    assert_eq!(value_of("force"), Some((empty(), Dice::Force)));
    assert_eq!(value_of("white"), Some((empty(), Dice::Force)));
    assert_eq!(value_of("w"), Some((empty(), Dice::Force)));

    assert_eq!(value_of("blue"), Some((empty(), Dice::Boost)));
    assert_eq!(value_of("b"), Some((empty(), Dice::Boost)));
    assert_eq!(value_of("boost"), Some((empty(), Dice::Boost)));
    assert!(value_of("6 + 2").is_none());
}

#[test]
fn test_parse_dice() {
    assert_eq!(dice_of("2p"), Some((empty(), DiceRoll::new(Dice::Difficulty, 2))));
    assert_eq!(dice_of("6ryyy"), Some(("yyy".to_string(), DiceRoll::new(Dice::Challenge, 6))));
    assert_eq!(dice_of("ggbpp"), Some(("gbpp".to_string(), DiceRoll::new(Dice::Ability, 1))));

    assert!(dice_of("*1").is_none());
}

#[test]
fn test_parse_group() {
    assert_eq!(
        group_of("6ryyy"),
        Some((empty(), vec![DiceRoll::new(Dice::Challenge, 6), DiceRoll::new(Dice::Proficiency, 3)]))
    );
}

#[test]
fn d_is_no_alias_of_any_die() {
    assert!(group_of("d").is_none());
    assert!(group_of("ddkb").is_none());
    assert!(parse_line("d").is_err());
}

#[test]
fn aliases_ignore_case() {
    assert_eq!(value_of("GREEN"), Some((empty(), Dice::Ability)));
    assert_eq!(value_of("SetBack"), Some((empty(), Dice::Setback)));
    assert_eq!(value_of("dIf"), Some((empty(), Dice::Difficulty)));
    assert_eq!(value_of("W"), Some((empty(), Dice::Force)));
}

#[test]
fn earlier_alias_wins_and_rest_is_left() {
    assert_eq!(value_of("gr"), Some(("r".to_string(), Dice::Ability)));
    assert_eq!(value_of("blackb"), Some(("b".to_string(), Dice::Setback)));
    assert_eq!(value_of("diffx"), Some(("x".to_string(), Dice::Difficulty)));
}

#[test]
fn line_two_p() {
    assert_eq!(parse_line("2p"), Ok(vec![vec![DiceRoll::new(Dice::Difficulty, 2)]]));
}

#[test]
fn line_counts_add_up() {
    assert_eq!(
        parse_line("6ryyy"),
        Ok(vec![vec![DiceRoll::new(Dice::Challenge, 6), DiceRoll::new(Dice::Proficiency, 3)]])
    );
}

#[test]
fn line_letters_are_tallied() {
    assert_eq!(
        parse_line("ggbpp"),
        Ok(vec![vec![
            DiceRoll::new(Dice::Ability, 2),
            DiceRoll::new(Dice::Boost, 1),
            DiceRoll::new(Dice::Difficulty, 2),
        ]])
    );
}

#[test]
fn line_two_groups_in_order() {
    assert_eq!(
        parse_line("2rkyyg, ppb"),
        Ok(vec![
            vec![
                DiceRoll::new(Dice::Challenge, 2),
                DiceRoll::new(Dice::Setback, 1),
                DiceRoll::new(Dice::Proficiency, 2),
                DiceRoll::new(Dice::Ability, 1),
            ],
            vec![DiceRoll::new(Dice::Difficulty, 2), DiceRoll::new(Dice::Boost, 1)],
        ])
    );
}

#[test]
fn line_words_with_spaces() {
    assert_eq!(
        parse_line("difficulty difficulty ability proficiency"),
        Ok(vec![vec![
            DiceRoll::new(Dice::Difficulty, 2),
            DiceRoll::new(Dice::Ability, 1),
            DiceRoll::new(Dice::Proficiency, 1),
        ]])
    );
}

#[test]
fn line_retallying_a_tally_keeps_it() {
    let first = parse_line("ggbpp").unwrap();
    let mut again = String::new();
    for roll in &first[0] {
        again.push_str(&roll.number_of_dice_to_roll.to_string());
        again.push(match roll.die {
            Dice::Ability => 'g',
            Dice::Boost => 'b',
            Dice::Difficulty => 'p',
            _ => 'x',
        });
    }
    assert_eq!(again, "2g1b2p");
    assert_eq!(parse_line(&again), Ok(first));
}

#[test]
fn line_unknown_character_fails() {
    assert_eq!(message_of(parse_line("*1")), "Expected remaining input to be empty, found: *1");
    assert!(matches!(parse_line("g*"), Err(ParserError::ParseError(_))));
    assert!(matches!(parse_line("x"), Err(ParserError::ParseError(_))));
}

#[test]
fn line_arithmetic_fails() {
    assert!(matches!(parse_line("6 + 2"), Err(ParserError::ParseError(_))));
}

#[test]
fn line_trailing_comma_fails() {
    assert_eq!(message_of(parse_line("g,")), "Expected remaining input to be empty, found: ,");
    assert_eq!(message_of(parse_line("g, p,*")), "Expected remaining input to be empty, found: ,*");
}

#[test]
fn line_trailing_whitespace_other_than_space() {
    assert_eq!(parse_line("g\t"), Ok(vec![vec![DiceRoll::new(Dice::Ability, 1)]]));
    assert!(parse_line("g\tg").is_err());
    assert!(parse_line("").is_err());
}

#[test]
fn line_zero_and_largest_counts() {
    assert_eq!(parse_line("0g"), Ok(vec![vec![DiceRoll::new(Dice::Ability, 0)]]));
    assert_eq!(parse_line("4294967295w"), Ok(vec![vec![DiceRoll::new(Dice::Force, 4294967295)]]));
    assert!(matches!(parse_line("4294967296w"), Err(ParserError::ParseError(_))));
    assert!(matches!(parse_line("4294967295ww"), Err(ParserError::ParseError(_))));
}

#[test]
fn groups_stop_before_a_lone_comma() {
    let s = chars("g,k,");
    let (groups, end) = parse_groups(&s, 0).unwrap();
    assert_eq!(groups, vec![vec![DiceRoll::new(Dice::Ability, 1)], vec![DiceRoll::new(Dice::Setback, 1)]]);
    assert_eq!(end, 3);
    assert!(parse_groups(&chars(",g"), 0).is_none());
}

#[test]
fn unknown_is_representable() {
    assert_ne!(ParserError::Unknown, ParserError::ParseError(String::new()));
}

#[test]
fn roll_new_keeps_fields() {
    let r = DiceRoll::new(Dice::Boost, 6);
    assert_eq!(r.die, Dice::Boost);
    assert_eq!(r.number_of_dice_to_roll, 6);
}

#[test]
fn every_alias_in_upper_case_resolves() {
    let table = [
        ("green", Dice::Ability),
        ("g", Dice::Ability),
        ("ability", Dice::Ability),
        ("abil", Dice::Ability),
        ("challenge", Dice::Challenge),
        ("cha", Dice::Challenge),
        ("red", Dice::Challenge),
        ("r", Dice::Challenge),
        ("proficiency", Dice::Proficiency),
        ("prof", Dice::Proficiency),
        ("yellow", Dice::Proficiency),
        ("y", Dice::Proficiency),
        ("difficulty", Dice::Difficulty),
        ("purple", Dice::Difficulty),
        ("p", Dice::Difficulty),
        ("diff", Dice::Difficulty),
        ("dif", Dice::Difficulty),
        ("black", Dice::Setback),
        ("k", Dice::Setback),
        ("setback", Dice::Setback),
        ("s", Dice::Setback),
        ("force", Dice::Force),
        ("white", Dice::Force),
        ("w", Dice::Force),
        ("blue", Dice::Boost),
        ("boost", Dice::Boost),
        ("b", Dice::Boost),
    ];
    for (alias, die) in table {
        assert_eq!(value_of(&alias.to_uppercase()), Some((empty(), die)), "{}", alias);
        assert_eq!(parse_line(alias), Ok(vec![vec![DiceRoll::new(die, 1)]]), "{}", alias);
    }
}

#[test]
fn rendered_group_reads_back_the_same() {
    let first = parse_line("2rkyyg").unwrap();
    assert_eq!(parse_line("2r1k2y1g"), Ok(first.clone()));
    assert_eq!(
        first,
        vec![vec![
            DiceRoll::new(Dice::Challenge, 2),
            DiceRoll::new(Dice::Setback, 1),
            DiceRoll::new(Dice::Proficiency, 2),
            DiceRoll::new(Dice::Ability, 1),
        ]]
    );
}

#[test]
fn unreadable_characters_are_rejected() {
    for line in ["g?g", "gq", "3z", "g,+", "1", "12"] {
        assert!(matches!(parse_line(line), Err(ParserError::ParseError(_))), "{}", line);
    }
}

#[test]
fn comma_at_the_end_is_rejected_whatever_precedes_it() {
    for line in [",", "g,", "2p, 3b,", "g , "] {
        assert!(matches!(parse_line(line), Err(ParserError::ParseError(_))), "{}", line);
    }
}
