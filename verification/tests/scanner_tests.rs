use borys::scanner::{parse_i32, parse_i64, parse_usize, split_whitespace, Scanner};
use borys::text::input_text;
use borys::{Figure, Input, Point};

fn toks(s: &str) -> Vec<String> {
    split_whitespace(s.as_bytes()).into_iter().map(|t| String::from_utf8(t).unwrap()).collect()
}

#[test]
fn split_whitespace_finds_tokens() {
    assert_eq!(toks("  12 ab\tc\n d "), vec!["12", "ab", "c", "d"]);
    assert_eq!(toks(""), Vec::<String>::new());
    assert_eq!(toks(" \r\n\t "), Vec::<String>::new());
    assert_eq!(toks("x"), vec!["x"]);
    for s in ["a b  c", "\n1\n2\n", " lead", "trail ", "\x0bv\x0ct\r"] {
        let mine = toks(s);
        let std_split: Vec<String> = s.split_whitespace().map(String::from).collect();
        assert_eq!(mine, std_split);
    }
}

#[test]
fn parsing_agrees_with_std() {
    let cases = [
        "0", "-0", "+0", "7", "+7", "-7", "007", "-", "+", "", "12a", "a12", "--1", "+-1", "-+1",
        "2147483647", "2147483648", "-2147483648", "-2147483649", "9223372036854775807",
        "9223372036854775808", "-9223372036854775808", "-9223372036854775809",
        "18446744073709551615", "18446744073709551616", "99999999999999999999999",
    ];
    for s in cases.iter() {
        assert_eq!(parse_i64(s.as_bytes()), s.parse::<i64>().ok(), "i64 {}", s);
        assert_eq!(parse_i32(s.as_bytes()), s.parse::<i32>().ok(), "i32 {}", s);
        assert_eq!(parse_usize(s.as_bytes()), s.parse::<usize>().ok(), "usize {}", s);
    }
}

#[test]
fn parse_edge_values() {
    assert_eq!(parse_i64(b"-9223372036854775808"), Some(i64::MIN));
    assert_eq!(parse_i64(b"9223372036854775808"), None);
    assert_eq!(parse_i32(b"-2147483648"), Some(i32::MIN));
    assert_eq!(parse_usize(b"-0"), None);
    assert_eq!(parse_i64(b"-0"), Some(0));
    assert_eq!(parse_i64(b"+15"), Some(15));
}

#[test]
fn scanner_reads_tokens_in_order() {
    let mut sc = Scanner::from_text(b"3 -4\n  hello\n18446744073709551615\n");
    assert!(sc.has_more_elements());
    assert_eq!(sc.usize(), Some(3));
    assert_eq!(sc.i64(), Some(-4));
    assert_eq!(sc.string(), Some(b"hello".to_vec()));
    assert_eq!(sc.i32(), None);
    assert!(!sc.has_more_elements());
    assert_eq!(sc.next(), None);
    assert_eq!(sc.i64(), None);
}

#[test]
fn scanner_lines_come_after_pending_tokens() {
    let mut sc = Scanner::new();
    assert!(!sc.has_more_elements());
    sc.parse_next_line(b"1 2");
    assert_eq!(sc.i64(), Some(1));
    sc.parse_next_line(b"3");
    assert_eq!(sc.i64(), Some(2));
    assert_eq!(sc.i64(), Some(3));
    assert_eq!(sc.i64(), None);
}

#[test]
fn lines_read_one_by_one_match_the_whole_text() {
    let lines: [&[u8]; 3] = [b"5 6", b"  7", b"8 9 "];
    let mut by_line = Scanner::new();
    for l in lines.iter() {
        by_line.parse_next_line(l);
    }
    let mut whole = Scanner::from_text(b"5 6\n  7\n8 9 ");
    let mut a = vec![];
    let mut b = vec![];
    while let Some(t) = by_line.next() {
        a.push(t);
    }
    while let Some(t) = whole.next() {
        b.push(t);
    }
    assert_eq!(a, b);
    assert_eq!(a.len(), 5);
}

#[test]
fn scanner_vec_reads_n_numbers() {
    let mut sc = Scanner::from_text(b"4 5 6 x");
    assert_eq!(sc.vec(2), Some(vec![4, 5]));
    assert_eq!(sc.vec(2), None);
    let mut sc = Scanner::from_text(b"1");
    assert_eq!(sc.vec(2), None);
    let mut sc = Scanner::from_text(b"");
    assert_eq!(sc.vec(0), Some(vec![]));
}

#[test]
fn scanner_reads_points() {
    let mut sc = Scanner::from_text(b"2\n1 2\n-3 4\nrest");
    assert_eq!(sc.points(), Some(vec![Point { x: 1, y: 2 }, Point { x: -3, y: 4 }]));
    assert_eq!(sc.string(), Some(b"rest".to_vec()));
    let mut short = Scanner::from_text(b"2\n1 2\n");
    assert_eq!(short.points(), None);
    let mut bad = Scanner::from_text(b"1\n1 2147483648\n");
    assert_eq!(bad.points(), None);
    let mut none = Scanner::from_text(b"-1");
    assert_eq!(none.points(), None);
}

fn sample_input() -> Input {
    Input {
        hole: vec![[0, 0], [10, 0], [10, 10]],
        figure: Figure { edges: vec![vec![0, 1], vec![1, 2]], vertices: vec![[1, -2], [3, 4], [5, 6]] },
        epsilon: 150000,
        bonuses: vec![],
    }
}

#[test]
fn input_text_layout() {
    let text = String::from_utf8(input_text(&sample_input())).unwrap();
    assert_eq!(text, "3\n0 0\n10 0\n10 10\n2\n0 1\n1 2\n3\n1 -2\n3 4\n5 6\n150000\n");
}

#[test]
fn input_text_reads_back() {
    let input = sample_input();
    let text = input_text(&input);
    let mut sc = Scanner::from_text(&text);
    let hole = sc.points().unwrap();
    assert_eq!(hole, vec![Point { x: 0, y: 0 }, Point { x: 10, y: 0 }, Point { x: 10, y: 10 }]);
    let m = sc.usize().unwrap();
    assert_eq!(m, 2);
    let edges: Vec<(usize, usize)> = (0..m).map(|_| (sc.usize().unwrap(), sc.usize().unwrap())).collect();
    assert_eq!(edges, vec![(0, 1), (1, 2)]);
    let fig = sc.points().unwrap();
    assert_eq!(fig, vec![Point { x: 1, y: -2 }, Point { x: 3, y: 4 }, Point { x: 5, y: 6 }]);
    assert_eq!(sc.i64(), Some(150000));
    assert!(!sc.has_more_elements());
}

#[test]
fn input_text_extreme_numbers() {
    let input = Input {
        hole: vec![[i32::MIN, i32::MAX]],
        figure: Figure { edges: vec![], vertices: vec![] },
        epsilon: i64::MIN,
        bonuses: vec![],
    };
    let text = String::from_utf8(input_text(&input)).unwrap();
    assert_eq!(text, "1\n-2147483648 2147483647\n0\n0\n-9223372036854775808\n");
}
