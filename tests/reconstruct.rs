use ocr_reader::line::{InterpretedLine, ParseError};
use ocr_reader::reconstruct::{
    assemble_text, build_line_text, collect_lines, is_name_label, reconstruct,
    reconstruct_with_offset, sort_lines, RawDetection, NAME_LABEL_OFFSET,
};
use ocr_reader::text::{parse_i32, trim};
use std::cmp::Ordering;

fn line(x: i32, y: i32, text: &str) -> InterpretedLine {
    let mut l = InterpretedLine::new(x, y, 5, 5);
    l.text.push_str(text);
    l
}

fn detection(bounding_box: &str, words: &[&str]) -> RawDetection {
    RawDetection {
        bounding_box: bounding_box.to_string(),
        words: words.iter().map(|w| w.to_string()).collect(),
    }
}

#[test]
fn parse_four_fields() {
    let l = InterpretedLine::parse_bounding_box("10,20,30,40").unwrap();
    assert_eq!((l.x, l.y, l.width, l.height), (10, 20, 30, 40));
    assert_eq!(l.text, "");
}

#[test]
fn parse_rejects_three_fields() {
    assert_eq!(InterpretedLine::parse_bounding_box("10,20,30").err(), Some(ParseError));
}

#[test]
fn parse_rejects_five_fields() {
    assert_eq!(InterpretedLine::parse_bounding_box("10,20,30,40,50").err(), Some(ParseError));
}

#[test]
fn parse_rejects_non_integer_field() {
    assert_eq!(InterpretedLine::parse_bounding_box("a,20,30,40").err(), Some(ParseError));
}

#[test]
fn parse_signs_and_bounds() {
    let l = InterpretedLine::parse_bounding_box("-5,+7,2147483647,-2147483648").unwrap();
    assert_eq!((l.x, l.y, l.width, l.height), (-5, 7, i32::MAX, i32::MIN));
    assert!(InterpretedLine::parse_bounding_box("2147483648,0,0,0").is_err());
    assert!(InterpretedLine::parse_bounding_box(",1,2,3").is_err());
    assert!(InterpretedLine::parse_bounding_box(" 1,2,3,4").is_err());
    assert!(InterpretedLine::parse_bounding_box("").is_err());
}

#[test]
fn parse_from_str_agrees() {
    let l: InterpretedLine = "1,2,3,4".parse().unwrap();
    assert_eq!((l.x, l.y, l.width, l.height), (1, 2, 3, 4));
    assert!("1,2".parse::<InterpretedLine>().is_err());
}

#[test]
fn parse_i32_matches_std() {
    for s in ["0", "-0", "+12", "-", "+", "", "12a", "99999999999", "-2147483649", "007", " 1", "1 "] {
        assert_eq!(parse_i32(s), s.parse::<i32>().ok(), "input {:?}", s);
    }
}

#[test]
fn trim_matches_std() {
    for s in ["  hello ", "\t\n x y \r", "", "   ", "\u{3000}a\u{a0}", "a"] {
        assert_eq!(trim(s), s.trim(), "input {:?}", s);
    }
}

#[test]
fn word_join_no_separator() {
    let mut l = InterpretedLine::new(0, 0, 1, 1);
    build_line_text(&mut l, &vec![" hello ".to_string(), "world".to_string(), "".to_string()]);
    assert_eq!(l.text, "helloworld");
}

#[test]
fn word_join_appends_to_existing_text() {
    let mut l = line(0, 0, "ab");
    build_line_text(&mut l, &vec!["  c".to_string()]);
    build_line_text(&mut l, &vec![]);
    assert_eq!(l.text, "abc");
}

#[test]
fn ordering_by_y_then_x() {
    let a = line(50, 10, "");
    let b = line(10, 20, "");
    let c = line(60, 10, "");
    assert_eq!(a.cmp(&b), Ordering::Less);
    assert_eq!(b.cmp(&a), Ordering::Greater);
    assert_eq!(a.cmp(&c), Ordering::Less);
    assert_eq!(a.cmp(&line(50, 10, "other")), Ordering::Equal);
    assert!(a == line(50, 10, "other"));
    assert!(a != c);
    assert!(a < b && c < b);
}

#[test]
fn sort_orders_every_adjacent_pair() {
    let mut lines = vec![
        line(30, 100, "e"),
        line(10, 0, "a"),
        line(5, 50, "c"),
        line(20, 0, "b"),
        line(80, 50, "d"),
    ];
    sort_lines(&mut lines);
    let texts: Vec<&str> = lines.iter().map(|l| l.text.as_str()).collect();
    assert_eq!(texts, vec!["a", "b", "c", "d", "e"]);
    for w in lines.windows(2) {
        assert!(w[0].y < w[1].y || (w[0].y == w[1].y && w[0].x <= w[1].x));
    }
}

#[test]
fn sort_keeps_ties_in_order() {
    let mut lines = vec![line(3, 3, "first"), line(1, 1, "top"), line(3, 3, "second")];
    sort_lines(&mut lines);
    let texts: Vec<&str> = lines.iter().map(|l| l.text.as_str()).collect();
    assert_eq!(texts, vec!["top", "first", "second"]);
}

#[test]
fn sort_empty_list() {
    let mut lines: Vec<InterpretedLine> = vec![];
    sort_lines(&mut lines);
    assert!(lines.is_empty());
}

#[test]
fn name_label_positive() {
    let lines = vec![line(200, 0, "Tanaka"), line(10, 50, "Hello"), line(15, 100, "World")];
    assert!(is_name_label(&lines, NAME_LABEL_OFFSET));
    assert_eq!(assemble_text(&lines, NAME_LABEL_OFFSET), "Tanaka: HelloWorld");
}

#[test]
fn name_label_negative() {
    let lines = vec![line(50, 0, "A"), line(10, 50, "B")];
    assert!(!is_name_label(&lines, NAME_LABEL_OFFSET));
    assert_eq!(assemble_text(&lines, NAME_LABEL_OFFSET), "AB");
}

#[test]
fn name_label_offset_is_strict() {
    let lines = vec![line(70, 0, "A"), line(10, 50, "B")];
    assert!(!is_name_label(&lines, NAME_LABEL_OFFSET));
    let lines = vec![line(71, 0, "A"), line(10, 50, "B")];
    assert_eq!(assemble_text(&lines, NAME_LABEL_OFFSET), "A: B");
    assert_eq!(assemble_text(&lines, 61), "AB");
}

#[test]
fn name_label_needs_every_other_line() {
    let lines = vec![line(200, 0, "N"), line(10, 50, "x"), line(190, 60, "y")];
    assert_eq!(assemble_text(&lines, NAME_LABEL_OFFSET), "Nxy");
}

#[test]
fn single_line_never_label() {
    let lines = vec![line(5000, 0, "Only")];
    assert!(!is_name_label(&lines, NAME_LABEL_OFFSET));
    assert_eq!(assemble_text(&lines, NAME_LABEL_OFFSET), "Only");
}

#[test]
fn empty_list_reconstructs_to_empty() {
    assert_eq!(assemble_text(&vec![], NAME_LABEL_OFFSET), "");
    assert_eq!(reconstruct(&vec![]), Ok(String::new()));
}

#[test]
fn reconstruct_sorts_and_labels() {
    let detections = vec![
        detection("15,100,50,20", &["Wor", " ld "]),
        detection("200,0,40,20", &[" Tanaka"]),
        detection("10,50,50,20", &["Hello"]),
    ];
    assert_eq!(reconstruct(&detections), Ok("Tanaka: HelloWorld".to_string()));
}

#[test]
fn reconstruct_without_label() {
    let detections = vec![detection("10,50,1,1", &["B"]), detection("50,0,1,1", &["A"])];
    assert_eq!(reconstruct(&detections), Ok("AB".to_string()));
    assert_eq!(reconstruct_with_offset(&detections, 30), Ok("A: B".to_string()));
}

#[test]
fn reconstruct_single_detection() {
    let detections = vec![detection("900,900,1,1", &[" one ", "two"])];
    assert_eq!(reconstruct(&detections), Ok("onetwo".to_string()));
}

#[test]
fn reconstruct_keeps_tie_order() {
    let detections = vec![
        detection("5,5,1,1", &["first"]),
        detection("5,5,1,1", &["second"]),
        detection("0,0,1,1", &["top"]),
    ];
    assert_eq!(reconstruct(&detections), Ok("topfirstsecond".to_string()));
}

#[test]
fn reconstruct_fails_on_bad_box() {
    let detections = vec![detection("1,2,3,4", &["ok"]), detection("1,2,3", &["bad"])];
    assert_eq!(reconstruct(&detections), Err(ParseError));
    assert!(collect_lines(&detections).is_err());
}

#[test]
fn collect_lines_keeps_given_order() {
    let detections = vec![detection("9,9,1,2", &["b"]), detection("1,1,3,4", &["a", "c"])];
    let lines = collect_lines(&detections).unwrap();
    assert_eq!((lines[0].x, lines[0].height, lines[0].text.as_str()), (9, 2, "b"));
    assert_eq!((lines[1].width, lines[1].text.as_str()), (3, "ac"));
}

#[test]
fn parse_round_trip_of_formatted_integers() {
    let values = [0, 1, -1, 9, 10, -10, 123, 4000, i32::MAX, i32::MIN, 2147483640, -99999];
    for &a in &values {
        for &b in &[0, -7, i32::MAX] {
            let text = format!("{},{},{},{}", a, b, a, b);
            let l = InterpretedLine::parse_bounding_box(&text).unwrap();
            assert_eq!((l.x, l.y, l.width, l.height), (a, b, a, b), "input {:?}", text);
            assert_eq!(l.text, "");
        }
    }
}

#[test]
fn from_str_scenarios() {
    let l: InterpretedLine = "10,20,30,40".parse().unwrap();
    assert_eq!((l.x, l.y, l.width, l.height), (10, 20, 30, 40));
    assert_eq!(l.text, "");
    let l: InterpretedLine = "-5,+7,0,2147483647".parse().unwrap();
    assert_eq!((l.x, l.y, l.width, l.height), (-5, 7, 0, 2147483647));
    for bad in ["10,20,30", "10,20,30,40,50", "a,20,30,40", "2147483648,0,0,0", "10,,30,40", "", "1.5,2,3,4"] {
        assert_eq!(bad.parse::<InterpretedLine>().err(), Some(ParseError), "input {:?}", bad);
    }
}

#[test]
fn from_str_round_trip_of_formatted_integers() {
    for &(a, b, c, d) in &[(0, 0, 0, 0), (-1, 22, -333, 4444), (i32::MIN, i32::MAX, 9, -10)] {
        let l: InterpretedLine = format!("{},{},{},{}", a, b, c, d).parse().unwrap();
        assert_eq!((l.x, l.y, l.width, l.height), (a, b, c, d));
        assert_eq!(l.text, "");
    }
}
