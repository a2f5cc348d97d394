use faster_beamer::lines::{
    chunks_of, join_texts, line_strings, lines_of, logical_line_count, parts_of,
};
use faster_beamer::numbers::{decimal_string, push_decimal, read_number, read_u32, read_usize};
use faster_beamer::search::{
    find_from, find_last, has_text, is_text_ignoring_case, is_whitespace, replace_text, trimmed,
};
use faster_beamer::tex::{
    brace_delta, command_name_at_line_start, is_document_context_command, is_title_info_command,
    strip_tex_comment_from_line, strip_tex_comments,
};
use faster_beamer::text::{byte_offset_of, line_number_at, position_of, width_of};

fn chars(text: &str) -> Vec<char> {
    text.chars().collect()
}

fn text(chars: &[char]) -> String {
    chars.iter().collect()
}

const SAMPLES: [&str; 12] = [
    "",
    "\n",
    "a",
    "a\n",
    "a\nb",
    "a\r\nb\r\n",
    "\r",
    "\n\n",
    "\u{e4}\n\u{20ac}\u{10348}\nx",
    " \t a \u{a0}\u{2003}",
    "aaaa",
    "\\\\% \\% % x",
];

#[test]
fn lines_are_those_of_std() {
    for sample in SAMPLES {
        let expected: Vec<String> = sample.lines().map(String::from).collect();
        assert_eq!(line_strings(sample), expected);
        let read: Vec<String> = lines_of(&chars(sample)).iter().map(|line| text(line)).collect();
        assert_eq!(read, expected);
        assert_eq!(logical_line_count(sample), sample.lines().count());
        let chunks: Vec<String> = chunks_of(&chars(sample)).iter().map(|line| text(line)).collect();
        let expected: Vec<String> = sample.split_inclusive('\n').map(String::from).collect();
        assert_eq!(chunks, expected);
        let parts: Vec<String> = parts_of(&chars(sample), 'a').iter().map(|p| text(p)).collect();
        let expected: Vec<String> = sample.split('a').map(String::from).collect();
        assert_eq!(join_texts(&parts, "a"), sample);
        assert_eq!(parts, expected);
    }
}

#[test]
fn searches_are_those_of_std() {
    for sample in SAMPLES {
        let s = chars(sample);
        assert_eq!(text(&trimmed(&s)), sample.trim());
        for p in ["", "a", "aa", "\n", "\u{20ac}", "zz"] {
            let pattern = chars(p);
            let expected = sample.find(p).map(|b| sample[..b].chars().count());
            assert_eq!(find_from(&s, &pattern, 0), expected);
            let expected = sample.rfind(p).map(|b| sample[..b].chars().count());
            assert_eq!(find_last(&s, &pattern), expected);
            assert_eq!(has_text(&s, p), sample.contains(p));
            assert_eq!(
                text(&replace_text(&s, &pattern, &chars("<>"))),
                sample.replace(p, "<>")
            );
        }
    }
    assert!(is_text_ignoring_case(&chars("TeX"), "tex"));
    assert!(!is_text_ignoring_case(&chars("T\u{cb}X"), "t\u{eb}x"));
}

#[test]
fn white_space_is_that_of_std() {
    for n in 0..0x11000u32 {
        if let Some(c) = char::from_u32(n) {
            assert_eq!(is_whitespace(c), c.is_whitespace());
        }
    }
}

#[test]
fn offsets_count_bytes() {
    let sample = "\u{e4}\n\u{20ac}\u{10348}\nx";
    let s = chars(sample);
    for (k, (b, c)) in sample.char_indices().enumerate() {
        assert_eq!(byte_offset_of(&s, k), b);
        assert_eq!(position_of(&s, b), k);
        assert_eq!(width_of(c), c.len_utf8());
        let line = sample[..b].matches('\n').count() as u128 + 1;
        assert_eq!(line_number_at(sample, b), line);
    }
    assert_eq!(byte_offset_of(&s, s.len()), sample.len());
}

#[test]
fn numbers_are_those_of_std() {
    for n in [0u128, 7, 10, 99, 100, 18446744073709551616, u128::MAX] {
        assert_eq!(decimal_string(n), n.to_string());
    }
    let mut out = String::from("x");
    push_decimal(&mut out, 305);
    assert_eq!(out, "x305");
    for sample in [
        "", "0", "007", "+5", "+", "-1", "-0", "4294967295", "4294967296", "18446744073709551615",
        "18446744073709551616", "1 ", "1_0", "\u{664}",
    ] {
        assert_eq!(read_usize(&chars(sample)), sample.parse::<usize>().ok());
        assert_eq!(read_u32(&chars(sample)), sample.parse::<u32>().ok());
    }
    assert_eq!(read_number(&chars("12"), 12), Some(12));
    assert_eq!(read_number(&chars("13"), 12), None);
}

#[test]
fn comments_are_taken_out() {
    assert_eq!(strip_tex_comments("a % b\nc \\% d % e\n\\\\% f"), "a \nc \\% d \n\\\\");
    assert_eq!(strip_tex_comment_from_line("\\\\\\% x % y\n"), "\\\\\\% x ");
    assert_eq!(strip_tex_comment_from_line("plain"), "plain");
}

#[test]
fn braces_are_balanced() {
    assert_eq!(brace_delta("{{}"), 1);
    assert_eq!(brace_delta("\\{ \\\\{ }}"), -1);
    assert_eq!(brace_delta(""), 0);
}

#[test]
fn commands_are_read_at_the_start_of_a_line() {
    assert_eq!(
        command_name_at_line_start("  \\newcommand{\\x}"),
        Some("newcommand".to_string())
    );
    assert_eq!(command_name_at_line_start("\\%"), None);
    assert_eq!(command_name_at_line_start("x \\def"), None);
    assert!(is_document_context_command("def"));
    assert!(is_document_context_command("NewAnything"));
    assert!(is_document_context_command("setbeamercolor"));
    assert!(!is_document_context_command("section"));
    assert!(!is_document_context_command("newpage"));
    assert!(is_title_info_command("institute"));
    assert!(!is_title_info_command("titlepage"));
}
