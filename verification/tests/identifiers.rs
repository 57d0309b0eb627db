use mare_website::utils::text::sorts_before;
use mare_website::utils::ulid::{DbUlid, DbUlidGen};

fn next(generator: &mut DbUlidGen) -> DbUlid {
    loop {
        if let Some(id) = generator.generate() {
            return id;
        }
    }
}

#[test]
fn generated_identifiers_are_distinct_and_increase_in_call_order() {
    let mut generator = DbUlidGen::new();
    let mut previous = next(&mut generator);
    for _ in 0..2_000 {
        let id = next(&mut generator);
        assert!(previous.get() < id.get());
        assert_ne!(previous, id);
        assert_eq!(generator.last_issued(), id.get());
        previous = id;
    }
}

#[test]
fn generator_starts_with_floor_zero() {
    assert_eq!(DbUlidGen::new().last_issued(), 0);
    assert_eq!(DbUlidGen::default().last_issued(), 0);
    assert_eq!(DbUlidGen::starting_after(77).last_issued(), 77);
}

#[test]
fn accept_issues_exactly_the_candidates_above_the_floor() {
    let mut generator = DbUlidGen::starting_after(10);
    assert_eq!(generator.accept(None), None);
    assert_eq!(generator.accept(Some(10)), None);
    assert_eq!(generator.accept(Some(3)), None);
    assert_eq!(generator.last_issued(), 10);
    assert_eq!(generator.accept(Some(11)), Some(DbUlid(11)));
    assert_eq!(generator.last_issued(), 11);
    assert_eq!(generator.accept(Some(11)), None);
    assert_eq!(generator.accept(Some(u128::MAX)), Some(DbUlid(u128::MAX)));
    assert_eq!(generator.accept(Some(u128::MAX)), None);
    assert_eq!(generator.last_issued(), u128::MAX);
}

#[test]
fn generator_above_a_high_floor_issues_nothing_below_it() {
    let mut generator = DbUlidGen::starting_after(u128::MAX);
    for _ in 0..10 {
        assert_eq!(generator.generate(), None);
    }
    assert_eq!(generator.last_issued(), u128::MAX);
}

#[test]
fn text_form_is_base_32_with_26_digits() {
    assert_eq!(DbUlid(0).to_text(), "00000000000000000000000000");
    assert_eq!(DbUlid(1).to_text(), "00000000000000000000000001");
    assert_eq!(DbUlid(31).to_text(), "0000000000000000000000000Z");
    assert_eq!(DbUlid(32).to_text(), "00000000000000000000000010");
    assert_eq!(DbUlid(u128::MAX).to_text(), "7ZZZZZZZZZZZZZZZZZZZZZZZZZ");
    assert_eq!(
        DbUlid(0x41414141414141414141414141414141).to_text(),
        "21850M2GA1850M2GA1850M2GA1"
    );
    assert_eq!(
        DbUlid(0x4d4e385051444a59454234335a413756).to_text(),
        "2D9RW50MA499CMAGHM6DD42DTP"
    );
}

#[test]
fn get_returns_the_value() {
    assert_eq!(DbUlid(5).get(), 5);
    assert_eq!(DbUlid(u128::MAX).get(), u128::MAX);
}

#[test]
fn parse_reads_the_text_form() {
    assert_eq!(DbUlid::parse("00000000000000000000000000"), Some(DbUlid(0)));
    assert_eq!(
        DbUlid::parse("21850M2GA1850M2GA1850M2GA1"),
        Some(DbUlid(0x41414141414141414141414141414141))
    );
    assert_eq!(
        DbUlid::parse("2d9rw50ma499cmaghm6dd42dtp"),
        Some(DbUlid(0x4d4e385051444a59454234335a413756))
    );
    assert_eq!(DbUlid::parse("7ZZZZZZZZZZZZZZZZZZZZZZZZZ"), Some(DbUlid(u128::MAX)));
}

#[test]
fn parse_turns_down_other_texts() {
    assert_eq!(DbUlid::parse(""), None);
    assert_eq!(DbUlid::parse("-"), None);
    assert_eq!(DbUlid::parse("2D9RW50MA499CMAGHM6DD42DT"), None);
    assert_eq!(DbUlid::parse("2D9RW50MA499CMAGHM6DD42DTPP"), None);
    assert_eq!(DbUlid::parse("2D9RW50[A499CMAGHM6DD42DTP"), None);
    assert_eq!(DbUlid::parse("2D9RW50LA499CMAGHM6DD42DTP"), None);
    assert_eq!(DbUlid::parse("2D9RW50IA499CMAGHM6DD42DTP"), None);
}

#[test]
fn text_form_is_read_back() {
    let mut generator = DbUlidGen::new();
    let mut samples = vec![DbUlid(0), DbUlid(1), DbUlid(u128::MAX), DbUlid(1 << 127)];
    for _ in 0..50 {
        samples.push(next(&mut generator));
    }
    for id in samples {
        let text = id.to_text();
        assert_eq!(text.chars().count(), 26);
        assert_eq!(DbUlid::parse(&text), Some(id));
    }
}

#[test]
fn text_forms_sort_as_the_identifiers_do() {
    let mut generator = DbUlidGen::new();
    let mut samples = vec![DbUlid(0), DbUlid(1), DbUlid(31), DbUlid(32), DbUlid(1 << 64)];
    for _ in 0..50 {
        samples.push(next(&mut generator));
    }
    samples.push(DbUlid(u128::MAX));
    for a in &samples {
        for b in &samples {
            assert_eq!(a.get() < b.get(), a.to_text() < b.to_text());
            assert_eq!(a < b, a.get() < b.get());
        }
    }
}

#[test]
fn text_longer_than_128_bits_keeps_the_lowest_bits() {
    assert_eq!(DbUlid::parse("80000000000000000000000000"), Some(DbUlid(0)));
    assert_eq!(
        DbUlid::parse("8ZZZZZZZZZZZZZZZZZZZZZZZZZ"),
        Some(DbUlid((1u128 << 125) - 1))
    );
    assert_eq!(DbUlid::parse("ZZZZZZZZZZZZZZZZZZZZZZZZZZ"), Some(DbUlid(u128::MAX)));
    assert_eq!(DbUlid::parse("G0000000000000000000000001"), Some(DbUlid(1)));
}

#[test]
fn parse_reads_letters_in_either_case_but_not_the_left_out_ones() {
    assert_eq!(DbUlid::parse("0000000000000000000000000a"), Some(DbUlid(10)));
    assert_eq!(DbUlid::parse("0000000000000000000000000A"), Some(DbUlid(10)));
    assert_eq!(DbUlid::parse("0000000000000000000000000z"), Some(DbUlid(31)));
    assert_eq!(DbUlid::parse("0000000000000000000000000h"), Some(DbUlid(17)));
    assert_eq!(DbUlid::parse("0000000000000000000000000j"), Some(DbUlid(18)));
    for left_out in ["i", "l", "o", "u", "I", "L", "O", "U", " ", "-", "_", "\u{e9}"] {
        let text = format!("0000000000000000000000000{}", left_out);
        assert_eq!(DbUlid::parse(&text), None);
    }
    assert_eq!(DbUlid::parse(&"\u{e9}".repeat(13)), None);
    assert_eq!(DbUlid::parse(&"\u{e9}".repeat(26)), None);
}

#[test]
fn from_text_reads_a_text_that_stands_for_an_identifier() {
    assert_eq!(DbUlid::from_text("00000000000000000000000000"), DbUlid(0));
    assert_eq!(
        DbUlid::from_text("21850M2GA1850M2GA1850M2GA1"),
        DbUlid(0x41414141414141414141414141414141)
    );
    assert_eq!(DbUlid::from_text("0000000000000000000000000z"), DbUlid(31));
    assert_eq!(DbUlid::from_text(&DbUlid(u128::MAX).to_text()), DbUlid(u128::MAX));
}

#[test]
fn parse_canonical_reads_the_text_form_and_no_other_text() {
    assert_eq!(DbUlid::parse_canonical("00000000000000000000000000"), Some(DbUlid(0)));
    assert_eq!(DbUlid::parse_canonical("0000000000000000000000000Z"), Some(DbUlid(31)));
    assert_eq!(DbUlid::parse_canonical("7ZZZZZZZZZZZZZZZZZZZZZZZZZ"), Some(DbUlid(u128::MAX)));
    assert_eq!(DbUlid::parse_canonical("0000000000000000000000000z"), None);
    assert_eq!(DbUlid::parse_canonical("8ZZZZZZZZZZZZZZZZZZZZZZZZZ"), None);
    assert_eq!(DbUlid::parse_canonical("80000000000000000000000000"), None);
    assert_eq!(DbUlid::parse_canonical("2d9rw50ma499cmaghm6dd42dtp"), None);
    assert_eq!(DbUlid::parse_canonical("0000000000000000000000000"), None);
    assert_eq!(DbUlid::parse_canonical("000000000000000000000000000"), None);
    assert_eq!(DbUlid::parse_canonical("0000000000000000000000000I"), None);
    assert_eq!(DbUlid::parse_canonical(""), None);
    let mut generator = DbUlidGen::new();
    for _ in 0..20 {
        let id = next(&mut generator);
        assert_eq!(DbUlid::parse_canonical(&id.to_text()), Some(id));
    }
}

#[test]
fn sorts_before_compares_as_strings_do() {
    let samples = [
        "", "0", "00", "1", "8", "A", "Z", "a", "z", "0A", "0a", "\u{e9}", "\u{1F984}", "~",
        "00000000000000000000000000", "0000000000000000000000000Z", "7ZZZZZZZZZZZZZZZZZZZZZZZZZ",
        "7ZZZZZZZZZZZZZZZZZZZZZZZZZ0",
    ];
    for a in samples {
        for b in samples {
            assert_eq!(sorts_before(a, b), a < b, "{:?} against {:?}", a, b);
        }
    }
}
