use gps_average::log::{begins_ignorable, gather, parse_file, LineError};
use gps_average::position::Position;
use gps_average::sentence::{Field, ParseError};

fn lines(text: &[&str]) -> Vec<String> {
    text.iter().map(|line| line.to_string()).collect()
}

#[test]
fn one_fix_gives_one_position() {
    let log = lines(&["$GPGGA,123519,4807.038,N,01131.000,E,1,08,0.9,545.4,M,46.9,M,,*47"]);
    assert_eq!(
        parse_file(&log),
        Ok(vec![Position { lat: 288_703_800, lon: 69_100_000, alt: 545_400 }])
    );
}

#[test]
fn an_empty_log_gives_no_positions() {
    assert_eq!(parse_file(&Vec::new()), Ok(Vec::new()));
}

#[test]
fn positions_come_in_the_order_of_their_lines() {
    let log = lines(&[
        "$PAAG,MODE,START",
        "$GPGGA,123519,4807.038,N,01131.000,E,1,08,0.9,545.4,M,46.9,M,,*47",
        "$GPRMC,123519,A,4807.038,N,01131.000,E,022.4,084.4,230394,003.1,W*6A",
        "$GPGGA,123520,4807.040,N,01131.002,E,1,08,0.9,545.9,M,46.9,M,,*47",
        "",
        "$GPGGA,,,,,,0,,,,,,,,*66",
        "$GPGGA,123521,4807.036,S,01130.998,W,1,08,0.9,544.9,M,46.9,M,,*47",
        "$PAAG,MODE,STOP",
    ]);
    assert_eq!(
        parse_file(&log),
        Ok(vec![
            Position { lat: 288_703_800, lon: 69_100_000, alt: 545_400 },
            Position { lat: 288_704_000, lon: 69_100_200, alt: 545_900 },
            Position { lat: -288_703_600, lon: -69_099_800, alt: 544_900 },
        ])
    );
}

#[test]
fn the_first_bad_line_ends_the_reading() {
    let log = lines(&[
        "$GPGGA,123519,4807.038,N,01131.000,E,1,08,0.9,545.4,M,46.9,M,,*47",
        "$PAAG,MODE,START",
        "$GPGGA,123520,4807.040,X,01131.002,E,1,08,0.9,545.9,M,46.9,M,,*47",
        "$GPGGA,123521,48x7.036,N,01130.998,E,1,08,0.9,544.9,M,46.9,M,,*47",
    ]);
    assert_eq!(
        parse_file(&log),
        Err(LineError {
            line: 3,
            error: ParseError::Hemisphere { field: Field::Latitude, start: 23, end: 24 },
        })
    );
}

#[test]
fn a_bad_first_line_is_line_one() {
    let log = lines(&["$GPGGA,123519"]);
    assert_eq!(
        parse_file(&log),
        Err(LineError { line: 1, error: ParseError::FieldCount { found: 1 } })
    );
}

#[test]
fn status_sentences_of_the_receiver_are_passed_over() {
    let log = lines(&["$PAAG", "$PAAG,", "$PAAGGA,1,2,3", "$PAAG,ID,1,2,3,4,5,6,7,8,9,10,11,12,13"]);
    assert_eq!(parse_file(&log), Ok(Vec::new()));
}

#[test]
fn status_sentences_are_known_by_how_they_begin() {
    assert!(begins_ignorable(b"$PAAG"));
    assert!(begins_ignorable(b"$PAAG,MODE,START"));
    assert!(!begins_ignorable(b"$PAA"));
    assert!(!begins_ignorable(b"PAAG,"));
    assert!(!begins_ignorable(b"$GPGGA,"));
    assert!(!begins_ignorable(b"$paag,"));
    assert!(!begins_ignorable(b""));
}

#[test]
fn positions_are_gathered_up_to_the_first_failure() {
    let a = Position { lat: 1, lon: 2, alt: 3 };
    let b = Position { lat: -4, lon: -5, alt: -6 };
    assert_eq!(gather(&Vec::new()), Ok(Vec::new()));
    assert_eq!(gather(&vec![Ok(None), Ok(None)]), Ok(Vec::new()));
    assert_eq!(
        gather(&vec![Ok(Some(a)), Ok(None), Ok(Some(b)), Ok(Some(a))]),
        Ok(vec![a, b, a])
    );
    assert_eq!(
        gather(&vec![
            Ok(Some(a)),
            Ok(None),
            Err(ParseError::Malformed),
            Ok(Some(b)),
            Err(ParseError::FieldCount { found: 2 }),
        ]),
        Err(LineError { line: 3, error: ParseError::Malformed })
    );
    assert_eq!(
        gather(&vec![Err(ParseError::FieldCount { found: 0 })]),
        Err(LineError { line: 1, error: ParseError::FieldCount { found: 0 } })
    );
}

#[test]
fn a_sentence_that_is_not_sound_ends_the_reading() {
    let log = lines(&[
        "$GPGGA,123519,4807.038,N,01131.000,E,1,08,0.9,545.4,M,46.9,M,,*47",
        "$GPGGA,123520,4807.040,N,01131.002,E,1,08,0.9,545.9,M,46.9,M,,",
        "$GPGGA,123521,4807.036,N,01130.998,E,1,08,0.9,544.9,M,46.9,M,,*47",
    ]);
    assert_eq!(parse_file(&log), Err(LineError { line: 2, error: ParseError::Malformed }));
}
