use gloom_rs::values::{is_white_space_char, split_values};

fn std_tokens(text: &str) -> Vec<&str> {
    text.split(',').map(|t| t.trim()).filter(|t| !t.is_empty()).collect()
}

fn parse_floats(text: &str) -> Vec<f32> {
    split_values(text).iter().map(|t| t.parse::<f32>().unwrap()).collect()
}

#[test]
fn splits_trims_and_drops_empty_fields() {
    assert_eq!(split_values("1, 2,,3 "), vec!["1", "2", "3"]);
    assert_eq!(split_values(" -0.5 ,\n0.25,\t1\n"), vec!["-0.5", "0.25", "1"]);
}

#[test]
fn nothing_to_split() {
    assert_eq!(split_values(""), Vec::<&str>::new());
    assert_eq!(split_values(" , ,\n, "), Vec::<&str>::new());
    assert_eq!(split_values(","), Vec::<&str>::new());
}

#[test]
fn inner_white_space_is_kept() {
    assert_eq!(split_values("a b , c"), vec!["a b", "c"]);
}

#[test]
fn unicode_white_space_is_trimmed() {
    assert_eq!(split_values("\u{3000}x\u{a0},\u{2009}y\u{85}"), vec!["x", "y"]);
    assert_eq!(split_values("é, ü "), vec!["é", "ü"]);
}

#[test]
fn agrees_with_std_split_and_trim() {
    let samples = [
        "",
        ",",
        ",,",
        " 1,2 ,  3  ",
        "\t\n",
        "1.0, 2.0, 3.0,\n4.0, 5.0, 6.0,\n",
        "x,, ,y,\u{2028}z\u{2029}",
        "no commas here",
        " \u{1680}a\u{180e}b ",
        "é,ä , ö",
    ];
    for s in samples.iter() {
        assert_eq!(split_values(s), std_tokens(s), "on {:?}", s);
    }
}

#[test]
fn white_space_matches_char_is_whitespace() {
    for code in 0u32..0x11_0000 {
        if let Some(c) = char::from_u32(code) {
            assert_eq!(is_white_space_char(c), c.is_whitespace(), "on U+{:04X}", code);
        }
    }
}

#[test]
fn values_parse_as_floats() {
    assert_eq!(parse_floats("0.5, -1.0,\n 2,"), vec![0.5f32, -1.0, 2.0]);
    assert_eq!(parse_floats(" 1e2 "), vec![100.0f32]);
}

#[test]
fn joined_tokens_read_back() {
    let tokens = vec!["1", "-2.5", "a b"];
    let text = tokens.join(",");
    assert_eq!(split_values(&text), tokens);
    let left = "1, 2";
    let right = " ,3";
    let both = format!("{},{}", left, right);
    let mut expected = split_values(left);
    expected.extend(split_values(right));
    assert_eq!(split_values(&both), expected);
}
