use rust_lotto_analyzer::dates::{decode_date, resolve_date};
use rust_lotto_analyzer::models::DrawDate;
use rust_lotto_analyzer::numbers::{
    decode_numbers, encode_numbers, is_space, normalize_combinations, parse_field,
};
use rust_lotto_analyzer::text::chars_of;

fn std_decode(text: &str) -> Vec<u8> {
    text.split(',').filter_map(|field| field.trim().parse().ok()).collect()
}

#[test]
fn decode_reads_plain_list() {
    assert_eq!(decode_numbers("1,2,3,4,5,6"), vec![1, 2, 3, 4, 5, 6]);
}

#[test]
fn decode_trims_each_field() {
    assert_eq!(decode_numbers("3, 11, 22, 30, 41, 55"), vec![3, 11, 22, 30, 41, 55]);
    assert_eq!(decode_numbers("  7\t,\n8 "), vec![7, 8]);
}

#[test]
fn decode_drops_what_is_no_number() {
    assert_eq!(decode_numbers("1,x,3"), vec![1, 3]);
    assert_eq!(decode_numbers("1,,3"), vec![1, 3]);
    assert_eq!(decode_numbers("1,2 3,4"), vec![1, 4]);
    assert_eq!(decode_numbers("-1,2"), vec![2]);
    assert_eq!(decode_numbers("1.5,2"), vec![2]);
}

#[test]
fn decode_drops_numbers_out_of_range() {
    assert_eq!(decode_numbers("255,256,300,1000000000000000000000,0"), vec![255, 0]);
}

#[test]
fn decode_accepts_plus_sign_and_leading_zeros() {
    assert_eq!(decode_numbers("+5,007,+,++1,+0"), vec![5, 7, 0]);
    assert_eq!(decode_numbers("0000000000000000000012"), vec![12]);
}

#[test]
fn decode_of_empty_text_is_empty() {
    assert_eq!(decode_numbers(""), Vec::<u8>::new());
    assert_eq!(decode_numbers(",,,"), Vec::<u8>::new());
    assert_eq!(decode_numbers("   "), Vec::<u8>::new());
}

#[test]
fn decode_trims_unicode_white_space() {
    assert_eq!(decode_numbers("\u{a0}9\u{2003},\u{3000}10\u{85}"), vec![9, 10]);
    assert_eq!(decode_numbers("\u{200b}9"), Vec::<u8>::new());
}

#[test]
fn decode_agrees_with_split_trim_parse() {
    let samples = [
        "",
        ",",
        "1",
        "1,2,3",
        " 1 , 2 , 3 ",
        "[1, 2, 3]",
        "a,b,c",
        "12,+13,-14,015,256,255",
        "1,,2,",
        ",1",
        "\u{1680}4\u{2028},\u{2029}5\u{202f},\u{205f}6",
        "٣,4",
        "1 2,3",
        "+,5",
        "99999999999999999999999999,9",
        "é,7,\u{1F600},8",
    ];
    for text in samples {
        assert_eq!(decode_numbers(text), std_decode(text), "text {:?}", text);
    }
}

#[test]
fn is_space_agrees_with_char_is_whitespace() {
    let mut code: u32 = 0;
    while code <= 0x10FFFF {
        if let Some(c) = char::from_u32(code) {
            assert_eq!(is_space(c), c.is_whitespace(), "code {:#x}", code);
        }
        code += 1;
    }
}

#[test]
fn parse_field_reads_a_stretch_of_the_text() {
    let chars: Vec<char> = "10, 20 ,x".chars().collect();
    assert_eq!(parse_field(&chars, 0, 2), Some(10));
    assert_eq!(parse_field(&chars, 3, 7), Some(20));
    assert_eq!(parse_field(&chars, 8, 9), None);
    assert_eq!(parse_field(&chars, 2, 2), None);
    assert_eq!(parse_field(&chars, 0, 1), Some(1));
}

#[test]
fn encode_writes_commas_between_numbers() {
    assert_eq!(encode_numbers(&[1, 2, 3]), "1,2,3");
    assert_eq!(encode_numbers(&[0, 9, 10, 99, 100, 255]), "0,9,10,99,100,255");
    assert_eq!(encode_numbers(&[42]), "42");
    assert_eq!(encode_numbers(&[]), "");
}

#[test]
fn encode_then_decode_gives_the_numbers_back() {
    let cases: Vec<Vec<u8>> = vec![
        vec![],
        vec![0],
        vec![1, 2, 3, 4, 5, 6],
        vec![55, 3, 41, 3, 0, 255, 100, 10],
        (0..=255).collect(),
        (0..=255).rev().collect(),
    ];
    for numbers in cases {
        let text = encode_numbers(&numbers);
        assert_eq!(decode_numbers(&text), numbers);
    }
}

#[test]
fn normalize_strips_brackets_only() {
    assert_eq!(normalize_combinations("[1, 2, 3, 4, 5, 6]"), "1, 2, 3, 4, 5, 6");
    assert_eq!(normalize_combinations("[3, 11, 22, 30, 41, 55]"), "3, 11, 22, 30, 41, 55");
    assert_eq!(normalize_combinations("[[1],[2]]"), "1,2");
    assert_eq!(normalize_combinations("no brackets"), "no brackets");
    assert_eq!(normalize_combinations(""), "");
    assert_eq!(normalize_combinations("]["), "");
}

#[test]
fn normalize_agrees_with_replace() {
    for text in ["[1, 2]", "a[b]c]d[", "{1}", "[é]", "[[[", "x"] {
        assert_eq!(normalize_combinations(text), text.replace('[', "").replace(']', ""));
    }
}

#[test]
fn normalized_source_list_decodes() {
    let stored = normalize_combinations("[3, 11, 22, 30, 41, 55]");
    assert_eq!(decode_numbers(&stored), vec![3, 11, 22, 30, 41, 55]);
}

#[test]
fn chars_of_reads_every_character() {
    assert_eq!(chars_of("aé\u{1F600}b"), vec!['a', 'é', '\u{1F600}', 'b']);
    assert_eq!(chars_of(""), Vec::<char>::new());
    assert_eq!(chars_of("1, 2"), vec!['1', ',', ' ', '2']);
}

#[test]
fn decode_date_reads_iso_dates() {
    assert_eq!(decode_date("2015-09-05"), DrawDate { year: 2015, month: 9, day: 5 });
    assert_eq!(decode_date("2024-02-29"), DrawDate { year: 2024, month: 2, day: 29 });
    assert_eq!(decode_date("1999-12-31"), DrawDate { year: 1999, month: 12, day: 31 });
}

#[test]
fn decode_date_falls_back_to_epoch() {
    let epoch = DrawDate { year: 1970, month: 1, day: 1 };
    assert_eq!(DrawDate::epoch(), epoch);
    assert_eq!(decode_date("not a date"), epoch);
    assert_eq!(decode_date(""), epoch);
    assert_eq!(decode_date("2015-02-30"), epoch);
    assert_eq!(decode_date("2015/09/05"), epoch);
    assert_eq!(decode_date("2015-13-01"), epoch);
}

#[test]
fn resolve_date_keeps_a_parsed_date() {
    assert_eq!(resolve_date(Some((2020, 6, 15))), DrawDate { year: 2020, month: 6, day: 15 });
    assert_eq!(resolve_date(None), DrawDate { year: 1970, month: 1, day: 1 });
}
