use vmstat_valkey::vmstat::{json_escape, parse_vmstat_line, KEYS};

const ROW: &str = " 1  0   256 801234  12345 678901    0    3     5    60  700 8000  9  1 88  2  0  4 2025-11-16 12:34:56\n";

#[test]
fn escapes_the_five_characters() {
    assert_eq!(json_escape("a\"b"), "a\\\"b");
    assert_eq!(json_escape("\\"), "\\\\");
    assert_eq!(json_escape("\n\r\t"), "\\n\\r\\t");
    assert_eq!(json_escape("plain \u{e9} \u{1}"), "plain \u{e9} \u{1}");
    assert_eq!(json_escape(""), "");
}

#[test]
fn escaped_text_reads_back() {
    let s = "say \"hi\"\\\n\r\tend\u{1f600}";
    let quoted = format!("\"{}\"", json_escape(s));
    let back: String = serde_json::from_str(&quoted).unwrap();
    assert_eq!(back, s);
}

#[test]
fn row_becomes_document() {
    let p = parse_vmstat_line(ROW).unwrap();
    assert_eq!(p.second, 56);
    assert_eq!(
        p.json,
        "{\"v-r\":1,\"v-b\":0,\"v-swpd\":256,\"v-free\":801234,\"v-buff\":12345,\"v-cache\":678901,\
         \"v-si\":0,\"v-so\":3,\"v-bi\":5,\"v-bo\":60,\"v-in\":700,\"v-cs\":8000,\"v-us\":9,\
         \"v-sy\":1,\"v-id\":88,\"v-wa\":2,\"v-st\":0,\"v-gu\":4,\"v-date\":\"2025-11-16\",\
         \"v-time\":\"12:34:56\"}"
    );
}

#[test]
fn document_reads_back() {
    let p = parse_vmstat_line(ROW).unwrap();
    let v: serde_json::Value = serde_json::from_str(&p.json).unwrap();
    let numbers = [1, 0, 256, 801234, 12345, 678901, 0, 3, 5, 60, 700, 8000, 9, 1, 88, 2, 0, 4];
    for i in 0..18 {
        assert_eq!(v[KEYS[i]].as_i64(), Some(numbers[i]));
    }
    assert_eq!(v["v-date"].as_str(), Some("2025-11-16"));
    assert_eq!(v["v-time"].as_str(), Some("12:34:56"));
    assert_eq!(v.as_object().unwrap().len(), 20);
}

#[test]
fn other_lines_are_passed_over() {
    assert_eq!(parse_vmstat_line(""), None);
    assert_eq!(parse_vmstat_line("   \n"), None);
    assert_eq!(
        parse_vmstat_line("procs -----------memory---------- ---swap-- -----io---- -system--"),
        None
    );
    assert_eq!(
        parse_vmstat_line(" r b swpd free buff cache si so bi bo in cs us sy id wa st gu UTC x"),
        None
    );
    assert_eq!(parse_vmstat_line("1 2 3 4 5 6 7 8 9 10 11 12 13 14 15 16 17 18 2025-11-16"), None);
    assert_eq!(
        parse_vmstat_line("-1 2 3 4 5 6 7 8 9 10 11 12 13 14 15 16 17 18 2025-11-16 00:00:01"),
        None
    );
}

fn row_with(first: &str, date: &str, time: &str) -> String {
    format!("{} 2 3 4 5 6 7 8 9 10 11 12 13 14 15 16 17 18 {} {} more words", first, date, time)
}

#[test]
fn column_without_number_is_zero() {
    let p = parse_vmstat_line(&row_with("1x", "d", "00:00:07")).unwrap();
    assert!(p.json.starts_with("{\"v-r\":0,\"v-b\":2,"));
    let p = parse_vmstat_line(&row_with("9223372036854775808", "d", "00:00:07")).unwrap();
    assert!(p.json.starts_with("{\"v-r\":0,\"v-b\":2,"));
    let p = parse_vmstat_line(&row_with("007", "d", "00:00:07")).unwrap();
    assert!(p.json.starts_with("{\"v-r\":7,\"v-b\":2,"));
}

#[test]
fn second_comes_from_the_time() {
    for (time, second) in [
        ("12:34:00", 0),
        ("12:34:59", 59),
        ("12:34:60", 0),
        ("12:34:-5", 0),
        ("12:34:+5", 5),
        ("12:34:5", 0),
        ("1:2:3", 0),
        ("12:34:56.789", 56),
        ("\u{e9}\u{e9}:142", 42),
        ("12:34\u{e9}42", 0),
        ("\u{e9}\u{e9}\u{e9}42", 42),
    ] {
        let p = parse_vmstat_line(&row_with("1", "d", time)).unwrap();
        assert_eq!(p.second, second, "{}", time);
    }
}

#[test]
fn date_and_time_are_escaped() {
    let p = parse_vmstat_line(&row_with("1", "a\"b", "c\\d")).unwrap();
    assert!(p.json.ends_with(",\"v-date\":\"a\\\"b\",\"v-time\":\"c\\\\d\"}"));
}

#[test]
fn member_names_differ() {
    for i in 0..18 {
        for j in 0..i {
            assert_ne!(KEYS[i], KEYS[j]);
        }
    }
}

#[test]
fn control_characters_are_refused() {
    for time in ["12:34:5\u{1}", "\u{0}", "\u{1b}[0m", "12:34:56\u{8}"] {
        let p = parse_vmstat_line(&row_with("1", "d", time)).unwrap();
        assert!(serde_json::from_str::<serde_json::Value>(&p.json).is_err());
    }
    let p = parse_vmstat_line(&row_with("1", "a/\u{7f}", "\u{e9}\u{ad}")).unwrap();
    let v: serde_json::Value = serde_json::from_str(&p.json).unwrap();
    assert_eq!(v["v-date"].as_str(), Some("a/\u{7f}"));
    assert_eq!(v["v-time"].as_str(), Some("\u{e9}\u{ad}"));
}
