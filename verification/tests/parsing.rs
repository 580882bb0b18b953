use minesweeper::commands::{Command, CommandParseError};
use minesweeper::commands::parse_coord;

#[test]
fn empty_line_exits() {
    assert_eq!(Command::parse(""), Ok(Command::Exit));
}

#[test]
fn exit_words() {
    assert_eq!(Command::parse("exit"), Ok(Command::Exit));
    assert_eq!(Command::parse("e"), Ok(Command::Exit));
    assert_eq!(Command::parse("quit"), Ok(Command::Exit));
    assert_eq!(Command::parse(" q \n"), Ok(Command::Exit));
    assert_eq!(Command::parse("QUIT"), Ok(Command::Exit));
}

#[test]
fn unknown_single_token() {
    assert_eq!(
        Command::parse("xyz"),
        Err(CommandParseError::UnknownCommand)
    );
    assert_eq!(
        Command::parse("dig"),
        Err(CommandParseError::UnknownCommand)
    );
    assert_eq!(Command::parse("   "), Err(CommandParseError::UnknownCommand));
}

#[test]
fn dig_and_flag_commands() {
    assert_eq!(Command::parse("dig a1"), Ok(Command::Dig(0, 0)));
    assert_eq!(Command::parse("d c3"), Ok(Command::Dig(2, 2)));
    assert_eq!(Command::parse("FLAG B2"), Ok(Command::Flag(1, 1)));
    assert_eq!(Command::parse("f a1"), Ok(Command::Flag(0, 0)));
    assert_eq!(Command::parse("  DIG  b10  \n"), Ok(Command::Dig(1, 9)));
    assert_eq!(Command::parse("d\tc3"), Ok(Command::Dig(2, 2)));
    assert_eq!(Command::parse("dig z99"), Ok(Command::Dig(25, 98)));
}

#[test]
fn unknown_verb() {
    assert_eq!(
        Command::parse("dg a1"),
        Err(CommandParseError::UnknownCommand)
    );
    assert_eq!(
        Command::parse("open a1"),
        Err(CommandParseError::UnknownCommand)
    );
}

#[test]
fn invalid_coordinates() {
    assert_eq!(
        Command::parse("dig a0"),
        Err(CommandParseError::InvalidCoords)
    );
    assert_eq!(
        Command::parse("dig 1a"),
        Err(CommandParseError::InvalidCoords)
    );
    assert_eq!(
        Command::parse("dig a"),
        Err(CommandParseError::InvalidCoords)
    );
    assert_eq!(
        Command::parse("dig aa1"),
        Err(CommandParseError::InvalidCoords)
    );
    // A bad coordinate wins over a bad verb.
    assert_eq!(
        Command::parse("zzz a0"),
        Err(CommandParseError::InvalidCoords)
    );
    // Far beyond the largest machine integer.
    assert_eq!(
        Command::parse("dig a99999999999999999999999"),
        Err(CommandParseError::InvalidCoords)
    );
}

#[test]
fn coordinate_round_trip() {
    assert_eq!(parse_coord("a1"), Some((0, 0)));
    assert_eq!(parse_coord("b7"), Some((1, 6)));
    assert_eq!(parse_coord("z99"), Some((25, 98)));
    for (i, letter) in ('a'..='z').enumerate() {
        for col in 1usize..=99 {
            let token = format!("{letter}{col}");
            assert_eq!(parse_coord(&token), Some((i, col - 1)));
        }
    }
}

#[test]
fn coordinate_rejections() {
    assert_eq!(parse_coord("a0"), None);
    assert_eq!(parse_coord("5a"), None);
    assert_eq!(parse_coord("a"), None);
    assert_eq!(parse_coord(""), None);
    assert_eq!(parse_coord("A1"), None);
    assert_eq!(parse_coord("a1x"), None);
    // Leading zeros are digits all the same.
    assert_eq!(parse_coord("a007"), Some((0, 6)));
}
