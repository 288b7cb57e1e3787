use splaunch::customkey::{
    b, base64_encode, decode_as_the_game_does, encode, n, s, t, to_lua, Numeral, Table, Value,
};

fn survives(table: &Table) -> bool {
    let lua = to_lua(table);
    decode_as_the_game_does(&encode(table)) == lua.as_bytes()
}

fn objective(description: &str) -> Table {
    let mut inner = Table::new();
    inner.set("description", s(description));
    inner.set("targetNumber", n(3));
    inner.set("comparisionType", n(1));
    let mut outer = Table::new();
    outer.push(t(inner));
    outer
}

#[test]
fn plain_text_round_trips() {
    assert!(survives(&objective("Have 3 Glaives by 0:35.")));
}

#[test]
fn a_question_mark_would_have_truncated_the_payload() {
    // Unescaped, this is the exact shape that silently loses objectives:
    // '?' at an offset that produces `_`, which the game reads as the end of
    // the data.
    let raw = b"{[1]={description=\"Can you hold the ridge?\",},}";
    let truncated = decode_as_the_game_does(&base64_encode(raw));
    assert_ne!(truncated, raw, "expected Zero-K's decoder to mangle this");
    // The `_` ends the data: what comes back stops short of the `?`.
    assert!(truncated.len() <= 41, "{} bytes came back", truncated.len());
    assert_eq!(&raw[..truncated.len()], truncated.as_slice());

    // Escaped, the same sentence survives.
    assert!(survives(&objective("Can you hold the ridge?")));
}

#[test]
fn non_ascii_survives() {
    for text in [
        "Halte den Grat fünf Minuten",
        "Продержись 5 минут",
        "守住山脊 5 分钟",
        "Tiens la crête — cinq minutes",
    ] {
        assert!(survives(&objective(text)), "lost: {text}");
    }
}

#[test]
fn quotes_and_backslashes_survive() {
    assert!(survives(&objective(r#"He said "go?" then left \ north"#)));
}

#[test]
fn every_byte_sequence_survives() {
    // Each risky byte at each offset in the 3-byte grouping, which is what
    // both faults key on.
    for byte in 0u32..=0x2FF {
        for pad in 0..3 {
            let text = format!("{}{}", "x".repeat(pad), char::from_u32(byte).unwrap_or('x'));
            assert!(survives(&objective(&text)), "lost byte {byte:#x} at pad {pad}");
        }
    }
}

#[test]
fn escapes_cannot_absorb_a_following_digit() {
    // "?1" must not become the escape \0631.
    let mut table = Table::new();
    table.set("description", s("?1"));
    assert!(to_lua(&table).contains(r#""\0631""#));
    assert!(survives(&table));
}

#[test]
fn integers_stay_integers() {
    let mut table = Table::new();
    table.set("targetNumber", n(3));
    table.set("satisfyByTime", n(35));
    assert_eq!(to_lua(&table), "{targetNumber=3,satisfyByTime=35,}");
}

#[test]
fn shape_matches_zero_ks_own_serialiser() {
    // `[i]=` for numeric keys, bare name otherwise, trailing comma on every
    // entry, no whitespace.
    let mut inner = Table::new();
    inner.set("victoryByTime", n(50));
    inner.set("completeAllBonusObjectives", b(true));
    let mut outer = Table::new();
    outer.push(t(inner));
    assert_eq!(to_lua(&outer), "{[1]={victoryByTime=50,completeAllBonusObjectives=true,},}");
}

#[test]
fn base64_matches_a_known_value() {
    assert_eq!(base64_encode(b"objective"), "b2JqZWN0aXZl");
    assert_eq!(base64_encode(b"ab"), "YWI=");
    assert_eq!(base64_encode(b"a"), "YQ==");
}

#[test]
fn a_negative_number_is_written_with_its_sign() {
    let mut table = Table::new();
    table.set("x", n(-12));
    assert_eq!(to_lua(&table), "{x=-12,}");
}

#[test]
fn pushed_values_take_the_next_index() {
    let mut table = Table::new();
    table.push(s("a"));
    table.push(b(false));
    table.set_index(7, n(0));
    table.push(s("b"));
    assert_eq!(to_lua(&table), "{[1]=\"a\",[2]=false,[7]=0,[4]=\"b\",}");
}

#[test]
fn control_and_quote_bytes_are_escaped_in_three_digits() {
    let mut table = Table::new();
    table.set("d", s("a\n\"\\"));
    assert_eq!(to_lua(&table), "{d=\"a\\010\\034\\092\",}");
}

#[test]
fn an_empty_table_encodes_to_its_braces() {
    let table = Table::new();
    assert_eq!(to_lua(&table), "{}");
    assert_eq!(encode(&table), "e30=");
}

#[test]
fn the_decoder_reads_an_underscore_as_the_end() {
    // `_` becomes `=`, which is outside the alphabet: decoding stops there.
    assert_eq!(decode_as_the_game_does("YWJj"), b"abc".to_vec());
    assert_eq!(decode_as_the_game_does("YW_j"), b"a".to_vec());
    // Nothing after it is read, however much follows.
    assert_eq!(decode_as_the_game_does("YW_jYWJj"), b"a".to_vec());
    assert_eq!(decode_as_the_game_does("YWJ_YWJj"), b"ab".to_vec());
    assert_eq!(decode_as_the_game_does("YWJj!WJj"), b"abc".to_vec());
}

#[test]
fn the_decoder_corrupts_a_high_third_byte() {
    // The third byte of a group loses its top two bits when both are set.
    let encoded = base64_encode(&[0x41, 0x42, 0xC3]);
    assert_eq!(decode_as_the_game_does(&encoded), vec![0x41, 0x42, 0x03]);
}

#[test]
fn only_the_shape_of_a_numeral_is_accepted_as_one() {
    for good in ["0", "-12", "512.5", "-0.25", "007"] {
        assert_eq!(Numeral::parse(good).map(|x| x.text().to_string()).as_deref(), Some(good));
    }
    for bad in ["", "-", "1e5", ".5", "5.", "1.2.3", "+1", "inf", "NaN", " 1", "1 "] {
        assert!(Numeral::parse(bad).is_none(), "{bad:?} was taken for a numeral");
    }
    assert_eq!(Numeral::integer(-9_000_000_000).text(), "-9000000000");
    assert_eq!(Numeral::integer(i64::MIN).text(), "-9223372036854775808");
}

#[test]
fn a_parsed_numeral_is_written_as_it_was_given() {
    let mut table = Table::new();
    table.set("x", Value::Num(Numeral::parse("-0.125").unwrap()));
    assert_eq!(to_lua(&table), "{x=-0.125,}");
}

#[test]
fn only_a_third_byte_with_both_top_bits_set_is_corrupted() {
    assert_eq!(decode_as_the_game_does(&base64_encode(&[0x41, 0x41, 0xC3])), vec![0x41, 0x41, 0x03]);
    assert_eq!(decode_as_the_game_does(&base64_encode(&[0xC3, 0xC3, 0x83])), vec![0xC3, 0xC3, 0x83]);
    assert_eq!(decode_as_the_game_does(&base64_encode(&[0x00, 0x00, 0xFE])), vec![0x00, 0x00, 0x3E]);
}

#[test]
fn a_payload_is_printable_and_its_encoding_has_no_underscore() {
    let mut inner = Table::new();
    inner.set("description", s("?? \u{0} ß 守 \"\\ \n"));
    inner.set("targetNumber", n(-7));
    let mut outer = Table::new();
    outer.push(t(inner));
    let lua = to_lua(&outer);
    assert!(lua.bytes().all(|c| (0x20..=0x7E).contains(&c) && c != b'?'), "{lua}");
    assert!(!encode(&outer).contains('_'));
    assert!(survives(&outer));
}
