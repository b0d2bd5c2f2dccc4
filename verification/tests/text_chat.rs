use tiny_llm::chars::answer_after;
use tiny_llm::chars::floor_char_boundary;
use tiny_llm::chars::parse_number;
use tiny_llm::chars::split_list;
use tiny_llm::chars::trim;
use tiny_llm::chars::truncate_chars;
use tiny_llm::chat::trim_history;
use tiny_llm::chat::trim_sft_history;
use tiny_llm::chat::ChatSession;
use tiny_llm::chat::TrimNotice;
use tiny_llm::chat::SFT_ASSISTANT;
use tiny_llm::chat::SFT_USER;
use tiny_llm::grids::parse_factors;
use tiny_llm::grids::parse_multiples;
use tiny_llm::grids::parse_sizes;
use tiny_llm::grids::GridFault;
use tiny_llm::report_text::indent;
use tiny_llm::report_text::widen;
use tiny_llm::text::decimal;
use tiny_llm::text::joined;
use tiny_llm::text::same_text;

fn count(s: &str) -> usize {
    s.chars().count()
}

#[test]
fn numbers_are_written_and_read() {
    for n in [0usize, 7, 10, 909, 65_536, usize::MAX] {
        let s = decimal(n);
        assert_eq!(s, format!("{}", n));
        assert_eq!(parse_number(&s), Some(n));
    }
    assert_eq!(parse_number(""), None);
    assert_eq!(parse_number("12a"), None);
    assert_eq!(parse_number("-1"), None);
    assert_eq!(parse_number("+5"), Some(5));
    assert_eq!(parse_number("99999999999999999999999"), None);
    assert_eq!(joined("ab", "cd"), "abcd");
    assert!(same_text("你好", "你好") && !same_text("a", "b"));
}

#[test]
fn texts_are_trimmed_and_split() {
    assert_eq!(trim("  a b \n"), "a b");
    assert_eq!(trim("\u{3000}x\t"), "x");
    assert_eq!(trim("   "), "");
    assert_eq!(trim(trim("  y ")), trim("  y "));
    assert_eq!(split_list(" 1, 2 ,,3 "), vec!["1", "2", "3"]);
    assert!(split_list(" , ").is_empty());
}

#[test]
fn texts_are_cut_at_characters() {
    assert_eq!(truncate_chars("你好吗", 2), "你好");
    assert_eq!(truncate_chars("ab", 5), "ab");
    assert_eq!(floor_char_boundary("你好", 4), 3);
    assert_eq!(floor_char_boundary("你好", 3), 3);
    assert_eq!(floor_char_boundary("你好", 99), 6);
    assert_eq!(floor_char_boundary("你好", 2), 0);
    assert_eq!(answer_after("question answer ", "question"), "answer");
    assert_eq!(answer_after("short", "a longer prompt"), "");
}

#[test]
fn columns_are_filled() {
    assert_eq!(widen("ab", 5), format!("{:<5}", "ab"));
    assert_eq!(indent("ab", 5), format!("{:>5}", "ab"));
    assert_eq!(widen("abcdef", 3), "abcdef");
    assert_eq!(indent("量化", 4), format!("{:>4}", "量化"));
}

#[test]
fn old_lines_are_dropped_first() {
    let h = "one\ntwo\nthree";
    assert_eq!(trim_history(&count, h, 100), h);
    assert_eq!(trim_history(&count, h, 9), "two\nthree");
    assert_eq!(trim_history(&count, h, 5), "three");
    assert_eq!(trim_history(&count, h, 4), "");
    assert_eq!(trim_history(&count, "", 0), "");
}

#[test]
fn old_turns_are_dropped_whole() {
    let turn = |q: &str, a: &str| format!("{}\n{}\n{}\n{}", SFT_USER, q, SFT_ASSISTANT, a);
    let h = format!("{}\n{}", turn("q1", "a1\nmore"), turn("q2", "a2"));
    assert_eq!(trim_sft_history(&count, &h, 1000), h);
    assert_eq!(trim_sft_history(&count, &h, count(&turn("q2", "a2"))), turn("q2", "a2"));
    assert_eq!(trim_sft_history(&count, &h, 3), "");
}

#[test]
fn a_conversation_keeps_its_history() {
    let mut s = ChatSession::new(false, " be kind ", 200, 20, &count);
    assert_eq!(s.system, "be kind");
    assert!(!s.is_window_short() && !s.is_budget_full());
    let p = s.begin_turn(" hello ", &count).expect("a turn begins");
    assert_eq!(p.input, "hello");
    assert_eq!(p.prompt, "be kind\nhello");
    assert!(matches!(p.notice, TrimNotice::Silent));
    assert_eq!(p.overflow, None);
    let out = format!("{} world ", p.prompt);
    assert_eq!(s.end_turn(p, &out), "world");
    assert_eq!(s.history, "hello\nworld");
    let p = s.begin_turn("again", &count).unwrap();
    assert_eq!(p.prompt, "be kind\nhello\nworld\nagain");
    // An empty answer leaves the question alone.
    let out = p.prompt.clone();
    assert_eq!(s.end_turn(p, &out), "");
    assert_eq!(s.history, "hello\nworld\nagain");
    for end in [":quit", ":exit", "   "] {
        assert!(s.begin_turn(end, &count).is_none());
    }
}

#[test]
fn a_templated_conversation_marks_its_turns() {
    let mut s = ChatSession::new(true, "", 500, 20, &count);
    assert_eq!(s.stop_marks(), vec!["。。", "用户："]);
    let p = s.begin_turn("hi", &count).unwrap();
    assert_eq!(p.prompt, format!("{}\nhi\n{}\n", SFT_USER, SFT_ASSISTANT));
    let out = format!("{}yes", p.prompt);
    assert_eq!(s.end_turn(p, &out), "yes");
    assert_eq!(s.history, format!("{}\nhi\n{}\nyes", SFT_USER, SFT_ASSISTANT));
}

#[test]
fn drops_and_overflows_are_reported_once() {
    let mut s = ChatSession::new(false, "", 30, 10, &count);
    assert!(s.stop_marks().is_empty());
    let p = s.begin_turn("first question", &count).unwrap();
    let out = format!("{} an answer", p.prompt);
    s.end_turn(p, &out);
    let before = count(&s.history);
    let p = s.begin_turn("next", &count).unwrap();
    match p.notice {
        TrimNotice::First { before: b, budget, dropped, after } => {
            assert_eq!(b, before);
            assert_eq!(budget, 30 - 10 - 4 - 1);
            assert_eq!(dropped, before - after);
            assert!(after <= budget);
        }
        _ => panic!("the first drop is reported"),
    }
    assert_eq!(p.history, "an answer");
    let out = p.prompt.clone();
    s.end_turn(p, &out);
    let long = "a question that is far longer than the whole window";
    let p = s.begin_turn(long, &count).unwrap();
    assert_eq!(p.overflow, Some(count(&p.prompt)));
    assert!(matches!(p.notice, TrimNotice::Silent));
    let out = p.prompt.clone();
    s.end_turn(p, &out);
    let p = s.begin_turn(long, &count).unwrap();
    assert_eq!(p.overflow, None);
}

#[test]
fn short_windows_are_seen() {
    assert!(ChatSession::new(false, "", 10, 10, &count).is_window_short());
    assert!(ChatSession::new(false, "0123456789", 20, 10, &count).is_budget_full());
    assert!(!ChatSession::new(false, "012345678", 21, 10, &count).is_budget_full());
}

#[test]
fn grids_are_read() {
    assert_eq!(parse_sizes("2x64, 3x96").unwrap(), vec![(2, 64), (3, 96)]);
    let e = parse_sizes("2x64,7").unwrap_err();
    assert_eq!((e.fault, e.piece.as_str()), (GridFault::NoSeparator, "7"));
    assert_eq!(parse_sizes("ax64").unwrap_err().fault, GridFault::BadLayers);
    assert_eq!(parse_sizes("2xb").unwrap_err().fault, GridFault::BadWidth);
    assert_eq!(parse_sizes("0x64").unwrap_err().fault, GridFault::TooSmall);
    assert_eq!(parse_sizes(" ").unwrap_err().fault, GridFault::Empty);

    assert_eq!(parse_multiples("1,2,4").unwrap(), vec![1, 2, 4]);
    assert_eq!(parse_multiples("1,x").unwrap_err().fault, GridFault::NotANumber);
    assert_eq!(parse_multiples("1,0").unwrap_err().fault, GridFault::TooSmall);
    assert_eq!(parse_multiples("").unwrap_err().fault, GridFault::Empty);

    let read = |s: &str| -> Option<u32> {
        match s.parse::<f32>() {
            Ok(v) => Some(v.to_bits()),
            Err(_) => None,
        }
    };
    let f: Vec<f32> =
        parse_factors("0, 1.25", &read).unwrap().iter().map(|v| f32::from_bits(*v)).collect();
    assert_eq!(f, vec![0.0, 1.25]);
    assert_eq!(parse_factors("1,-1", &read).unwrap_err().fault, GridFault::Negative);
    assert_eq!(parse_factors("1,q", &read).unwrap_err().fault, GridFault::NotANumber);
    assert_eq!(parse_factors(",", &read).unwrap_err().fault, GridFault::Empty);
}
