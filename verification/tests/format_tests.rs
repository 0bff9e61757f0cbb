use busy_beaver::format::{read_compact, read_seed_database, write_compact, write_seed_database, FormatError};

const BB5_CHAMPION_COMPACT: &[u8] = b"1RB1LC_1RC1RB_1RD0LE_1LA1LD_---0LA";

#[test]
fn parse_bb5_champion() {
    let states = read_compact(BB5_CHAMPION_COMPACT).unwrap();
    assert_eq!(BB5_CHAMPION_COMPACT, write_compact(&states).as_slice());
}

#[test]
fn database() {
    let database = &[
        1u8, 0, 2, 0, 1, 4, 0, 1, 3, 1, 1, 5, 1, 1, 4, 1, 1, 3, 0, 0, 1, 0, 0, 0, 1, 0, 2, 1, 0, 5,
    ];
    let compact = b"1RB0LD_0LC1LE_1LD1LC_0RA---_1RB1RE";
    let a = read_seed_database(database).unwrap();
    let b = read_compact(compact).unwrap();
    assert_eq!(a, b);
    let a = write_seed_database(&a);
    assert_eq!(database.as_slice(), a.as_slice());
}

#[test]
fn compact_rejects_wrong_length() {
    assert_eq!(read_compact(b"1RB"), Err(FormatError::InvalidLength));
    assert_eq!(read_compact(b""), Err(FormatError::InvalidLength));
    assert_eq!(
        read_compact(b"1RB1LC_1RC1RB_1RD0LE_1LA1LD_---0LA_"),
        Err(FormatError::InvalidLength)
    );
}

#[test]
fn compact_rejects_bad_symbol() {
    assert_eq!(
        read_compact(b"2RB1LC_1RC1RB_1RD0LE_1LA1LD_---0LA"),
        Err(FormatError::InvalidSymbol)
    );
}

#[test]
fn compact_rejects_bad_direction() {
    assert_eq!(
        read_compact(b"1XB1LC_1RC1RB_1RD0LE_1LA1LD_---0LA"),
        Err(FormatError::InvalidDirection)
    );
}

#[test]
fn compact_rejects_bad_state() {
    assert_eq!(
        read_compact(b"1RF1LC_1RC1RB_1RD0LE_1LA1LD_---0LA"),
        Err(FormatError::InvalidState)
    );
}

#[test]
fn compact_first_error_wins() {
    // The bad direction in the first cell is reported even though a later
    // cell has a bad state letter.
    assert_eq!(
        read_compact(b"1XB1LC_1RC1RB_1RD0LF_1LA1LD_---0LA"),
        Err(FormatError::InvalidDirection)
    );
}

#[test]
fn compact_ignores_separator_bytes() {
    // The byte between state blocks is not inspected.
    let a = read_compact(b"1RB1LC_1RC1RB_1RD0LE_1LA1LD_---0LA").unwrap();
    let b = read_compact(b"1RB1LCX1RC1RBX1RD0LEX1LA1LDX---0LA").unwrap();
    assert_eq!(a, b);
}

#[test]
fn seed_database_rejects_wrong_length() {
    assert_eq!(read_seed_database(&[0u8; 29]), Err(FormatError::InvalidLength));
    assert_eq!(read_seed_database(&[0u8; 31]), Err(FormatError::InvalidLength));
}

#[test]
fn seed_database_rejects_bad_bytes() {
    let mut db = [0u8; 30];
    db[0] = 2;
    db[2] = 1;
    assert_eq!(read_seed_database(&db), Err(FormatError::InvalidSymbol));
    let mut db = [0u8; 30];
    db[1] = 2;
    db[2] = 1;
    assert_eq!(read_seed_database(&db), Err(FormatError::InvalidDirection));
    let mut db = [0u8; 30];
    db[0] = 1;
    assert_eq!(read_seed_database(&db), Err(FormatError::InvalidState));
    let mut db = [0u8; 30];
    db[2] = 6;
    assert_eq!(read_seed_database(&db), Err(FormatError::InvalidState));
}

#[test]
fn seed_database_round_trip() {
    let m = read_compact(BB5_CHAMPION_COMPACT).unwrap();
    let bytes = write_seed_database(&m);
    assert_eq!(bytes.len(), 30);
    let back = read_seed_database(&bytes).unwrap();
    assert_eq!(m, back);
}

#[test]
fn compact_round_trip_all_halt_rows() {
    let text = b"1RB---_------_------_------_------";
    let m = read_compact(text).unwrap();
    assert_eq!(write_compact(&m).as_slice(), text.as_slice());
    let db = write_seed_database(&m);
    let back = read_seed_database(&db).unwrap();
    assert_eq!(m, back);
}
