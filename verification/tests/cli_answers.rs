use maze::cli::{parse_size, parse_solution_answer};

fn std_size(input: &str) -> Option<usize> {
    match input.trim().parse::<usize>() {
        Ok(n) if n >= 2 => Some(n),
        _ => None,
    }
}

fn std_answer(input: &str) -> Option<bool> {
    match input.trim().to_ascii_lowercase().as_str() {
        "y" | "yes" => Some(true),
        "n" | "no" => Some(false),
        _ => None,
    }
}

const SIZE_INPUTS: [&str; 22] = [
    "2\n",
    "abc\n",
    "1\n",
    "0",
    "",
    "\n",
    "  17  \n",
    "+8",
    "+",
    "-3",
    "3.0",
    "1 2",
    "007",
    "18446744073709551615",
    "18446744073709551616",
    "99999999999999999999999",
    "\u{3000}12\u{2003}",
    "\u{a0}4\u{85}",
    "\u{200b}4",
    "٣",
    "４",
    "\t\r\n 5 \x0b\x0c",
];

#[test]
fn size_answers_read_as_the_standard_parser_does() {
    for input in SIZE_INPUTS {
        assert_eq!(parse_size(input), std_size(input), "input {:?}", input);
    }
}

#[test]
fn size_answer_examples() {
    assert_eq!(parse_size("abc\n"), None);
    assert_eq!(parse_size("1\n"), None);
    assert_eq!(parse_size("2\n"), Some(2));
    assert_eq!(parse_size(" 12 \n"), Some(12));
    assert_eq!(parse_size("+3"), Some(3));
    assert_eq!(parse_size("-3"), None);
}

#[test]
fn solution_answers_accept_y_yes_n_no_in_any_case() {
    assert_eq!(parse_solution_answer("y\n"), Some(true));
    assert_eq!(parse_solution_answer("yes\n"), Some(true));
    assert_eq!(parse_solution_answer("yEs\n"), Some(true));
    assert_eq!(parse_solution_answer("n\n"), Some(false));
    assert_eq!(parse_solution_answer("no\n"), Some(false));
    assert_eq!(parse_solution_answer("nO\n"), Some(false));
    assert_eq!(parse_solution_answer("maybe\n"), None);
    assert_eq!(parse_solution_answer("ye s"), None);
    assert_eq!(parse_solution_answer(""), None);
}

#[test]
fn solution_answers_read_as_trim_and_lowercase_do() {
    for input in ["Y", " YES\t", "\u{2028}no\u{2029}", "NO!", "yes\u{200b}", "ÿes", "Ｙ", "n o"] {
        assert_eq!(parse_solution_answer(input), std_answer(input), "input {:?}", input);
    }
}
