use tic_tac::parse_util::Buffer;

#[test]
fn test_advance() {
    let input = Buffer { row: 1, col: 0, text: b"Hello" };

    assert_eq!(input.advance(1), Buffer { row: 1, col: 1, text: b"ello" });
    assert_eq!(input.advance(0), input);
    assert_eq!(input.advance(5), Buffer { row: 1, col: 5, text: b"" });
    assert_eq!(input.advance(10), Buffer { row: 1, col: 5, text: b"" });
}

#[test]
fn test_trim() {
    let input = Buffer { row: 1, col: 2, text: b"  Hello  " };

    assert_eq!(input.trim_left(), Buffer { row: 1, col: 4, text: b"Hello  " });
    assert_eq!(input.trim_right(), Buffer { row: 1, col: 2, text: b"  Hello" });
    assert_eq!(input.trim(), Buffer { row: 1, col: 4, text: b"Hello" });

    // Idempotent
    assert_eq!(input.trim_left(), input.trim_left().trim_left());
    assert_eq!(input.trim_right(), input.trim_right().trim_right());
    assert_eq!(input.trim(), input.trim().trim());
}

#[test]
fn test_space() {
    let good_input = Buffer { row: 0, col: 0, text: b"  Consume the space" };

    assert_eq!(good_input.space(), Ok(Buffer { row: 0, col: 2, text: b"Consume the space" }));

    let bad_input = Buffer { row: 0, col: 0, text: b"No space here" };

    assert!(bad_input.space().is_err());
    assert!(bad_input.space_or_end().is_err());

    let is_end = Buffer { row: 7, col: 42, text: b"" };

    assert!(is_end.space().is_err());
    assert_eq!(is_end.space_or_end(), Ok(is_end));
}

#[test]
fn test_token() {
    let input = Buffer { row: 0, col: 0, text: b"Token" };
    let empty = Buffer { row: 0, col: 5, text: b"" };
    let en_input = Buffer { row: 0, col: 3, text: b"en" };

    assert_eq!(input.token(b"Token"), Ok(empty));
    assert!(input.token(b"token").is_err());
    assert_eq!(input.token(b"Tok"), Ok(en_input));
}

#[test]
fn test_first_token() {
    let input = Buffer { row: 0, col: 0, text: b"Tokens" };
    let empty = Buffer { row: 0, col: 6, text: b"" };
    let s_input = Buffer { row: 0, col: 5, text: b"s" };

    assert_eq!(
        input.first_token_of(&[b"Tokens".as_slice(), b"Token".as_slice()]),
        Ok((empty, b"Tokens".as_slice()))
    );
    assert_eq!(
        input.first_token_of(&[b"Token".as_slice(), b"Tokens".as_slice()]),
        Ok((s_input, b"Token".as_slice()))
    );
    assert_eq!(input.first_token_of(&[]), Ok((input, b"".as_slice())));

    // Error messages should be correct
    assert_eq!(
        input.first_token_of(&[b"Meow".as_slice()]).unwrap_err(),
        input.expected(b"\"Meow\"".to_vec())
    );
    assert_eq!(
        input.first_token_of(&[b"Meow".as_slice(), b"Bark".as_slice()]).unwrap_err(),
        input.expected(b"either \"Meow\" or \"Bark\"".to_vec())
    );
    assert_eq!(
        input
            .first_token_of(&[b"Meow".as_slice(), b"Bark".as_slice(), b"Moo".as_slice()])
            .unwrap_err(),
        input.expected(b"one of \"Meow\", \"Bark\", or \"Moo\"".to_vec())
    );
}

#[test]
fn test_starts_with() {
    let input = Buffer { row: 0, col: 0, text: b"Starts with" };

    assert!(input.starts_with(b"Starts"));
    assert!(!input.starts_with(b"starts"));
    assert!(input.starts_with(b"Starts with"));
    assert!(input.starts_with(b"Star"));
    assert!(!input.starts_with(b"X"));
}

#[test]
fn test_starts_with_multibyte() {
    const HEART: &[u8] = "\u{1F49C}".as_bytes();
    let heart_emoji = Buffer { row: 0, col: 0, text: HEART };

    assert!(heart_emoji.starts_with(HEART));
    assert!(!heart_emoji.starts_with(b"x"));

    let heart = Buffer { row: 0, col: 0, text: b"heart" };

    assert!(!heart.starts_with(HEART));
}
