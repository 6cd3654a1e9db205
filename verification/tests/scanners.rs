use strace_log_utils::error::ParseErrorKind;
use strace_log_utils::parser::{
    arg_raw_str, classify_arg, syscall_args, syscall_name, syscall_result, syscall_separator, Arg,
};

#[test]
fn argument_ends_at_comma_or_paren() {
    assert_eq!(arg_raw_str("a,b)"), Ok((",b)", Arg::String("a"))));
    assert_eq!(arg_raw_str(" \"/etc/ld.so.cache\", 3)"), Ok((", 3)", Arg::String(" \"/etc/ld.so.cache\""))));
    assert_eq!(arg_raw_str("AT_FDCWD, 3)"), Ok((", 3)", Arg::String("AT_FDCWD"))));
    assert_eq!(arg_raw_str("a|b,c|d)"), Ok((",c|d)", Arg::Flags(vec!["a", "b"]))));
    assert_eq!(arg_raw_str(")rest"), Ok((")rest", Arg::String(""))));
    assert_eq!(arg_raw_str(",rest"), Ok((",rest", Arg::String(""))));
    assert_eq!(arg_raw_str("no delimiter"), Ok(("", Arg::String("no delimiter"))));
    assert_eq!(arg_raw_str(""), Ok(("", Arg::String(""))));
}

#[test]
fn argument_is_classified_where_it_is_cut() {
    assert_eq!(
        arg_raw_str("O_RDONLY|O_CLOEXEC"),
        Ok(("", Arg::Flags(vec!["O_RDONLY", "O_CLOEXEC"])))
    );
    assert_eq!(
        arg_raw_str(" O_RDONLY|O_CLOEXEC) = 3"),
        Ok((") = 3", Arg::Flags(vec!["O_RDONLY", "O_CLOEXEC"])))
    );
    assert_eq!(arg_raw_str("A|B|C,rest"), Ok((",rest", Arg::Flags(vec!["A", "B", "C"]))));
    assert_eq!(arg_raw_str("NULL"), Ok(("", Arg::Null)));
    assert_eq!(arg_raw_str("NULL)"), Ok((")", Arg::Null)));
    assert_eq!(arg_raw_str(" NULL, 0)"), Ok((", 0)", Arg::Null)));
    assert_eq!(arg_raw_str("NULL|A)"), Ok((")", Arg::Flags(vec!["NULL", "A"]))));
    assert_eq!(arg_raw_str("A|1)"), Ok((")", Arg::String("A|1"))));
    assert_eq!(arg_raw_str("O_RDONLY)"), Ok((")", Arg::String("O_RDONLY"))));
}

#[test]
fn name_ends_before_the_first_paren() {
    assert_eq!(syscall_name("openat(AT_FDCWD) = 3"), Ok(("(AT_FDCWD) = 3", "openat")));
    assert_eq!(syscall_name("a(b(c"), Ok(("(b(c", "a")));
    assert_eq!(syscall_name("rt_sigaction ("), Ok(("(", "rt_sigaction ")));
    assert_eq!(syscall_name("openat"), Err(ParseErrorKind::MissingDelimiter));
    assert_eq!(syscall_name("(x)"), Err(ParseErrorKind::MissingDelimiter));
    assert_eq!(syscall_name(""), Err(ParseErrorKind::MissingDelimiter));
}

#[test]
fn argument_list_is_cut_at_commas() {
    assert_eq!(
        syscall_args("(a, 1,NULL) = 1"),
        Ok((" = 1", vec![Arg::String("a"), Arg::String(" 1"), Arg::Null]))
    );
    assert_eq!(syscall_args("()"), Ok(("", vec![])));
    assert_eq!(syscall_args("())"), Ok((")", vec![])));
    assert_eq!(syscall_args("(,)x"), Ok(("x", vec![Arg::String(""), Arg::String("")])));
    assert_eq!(syscall_args("(,,)"), Ok(("", vec![Arg::String(""), Arg::String(""), Arg::String("")])));
    assert_eq!(syscall_args("((a)"), Ok(("", vec![Arg::String("(a")])));
}

#[test]
fn argument_list_needs_both_parens() {
    assert_eq!(syscall_args(""), Err(ParseErrorKind::MissingDelimiter));
    assert_eq!(syscall_args("a)"), Err(ParseErrorKind::MissingDelimiter));
    assert_eq!(syscall_args(" (a)"), Err(ParseErrorKind::MissingDelimiter));
    assert_eq!(syscall_args("("), Err(ParseErrorKind::MissingDelimiter));
    assert_eq!(syscall_args("(a, b"), Err(ParseErrorKind::MissingDelimiter));
}

#[test]
fn separator_takes_the_whitespace_on_both_sides() {
    assert_eq!(syscall_separator(" = 3"), Ok("3"));
    assert_eq!(syscall_separator("=3"), Ok("3"));
    assert_eq!(syscall_separator("\t\r\n = \n\t-1 x"), Ok("-1 x"));
    assert_eq!(syscall_separator("="), Ok(""));
    assert_eq!(syscall_separator("== 3"), Ok("= 3"));
    assert_eq!(syscall_separator(" =\u{a0}3"), Ok("\u{a0}3"));
}

#[test]
fn separator_needs_the_equals_sign() {
    assert_eq!(syscall_separator(""), Err(ParseErrorKind::MissingSeparator));
    assert_eq!(syscall_separator("   "), Err(ParseErrorKind::MissingSeparator));
    assert_eq!(syscall_separator(" 3"), Err(ParseErrorKind::MissingSeparator));
    assert_eq!(syscall_separator(" x= 3"), Err(ParseErrorKind::MissingSeparator));
    assert_eq!(syscall_separator("\u{a0}= 3"), Err(ParseErrorKind::MissingSeparator));
}

#[test]
fn result_is_read_as_a_signed_number() {
    assert_eq!(syscall_result("3"), Ok(("", 3)));
    assert_eq!(syscall_result("-1 ENOENT (No such file or directory)"), Ok((" ENOENT (No such file or directory)", -1)));
    assert_eq!(syscall_result("007"), Ok(("", 7)));
    assert_eq!(syscall_result("-0"), Ok(("", 0)));
    assert_eq!(syscall_result("12a"), Ok(("a", 12)));
    assert_eq!(syscall_result("1-2"), Ok(("-2", 1)));
    assert_eq!(syscall_result("127"), Ok(("", 127)));
    assert_eq!(syscall_result("-128"), Ok(("", -128)));
    assert_eq!(syscall_result("100"), Ok(("", 100)));
    assert_eq!(syscall_result("-100."), Ok((".", -100)));
}

#[test]
fn result_needs_digits_that_fit() {
    for text in ["", "-", "--1", "+1", " 1", "x", "-x1", "128", "-129", "255", "256", "1270", "\u{661}"] {
        assert_eq!(syscall_result(text), Err(ParseErrorKind::MalformedResult), "{text:?}");
    }
}

#[test]
fn joined_identifiers_are_flags() {
    assert_eq!(classify_arg("O_RDONLY|O_CLOEXEC"), Arg::Flags(vec!["O_RDONLY", "O_CLOEXEC"]));
    assert_eq!(classify_arg(" O_RDONLY|O_CLOEXEC"), Arg::Flags(vec!["O_RDONLY", "O_CLOEXEC"]));
    assert_eq!(classify_arg("\t \r\nA|B|C"), Arg::Flags(vec!["A", "B", "C"]));
    assert_eq!(classify_arg("B|A|B"), Arg::Flags(vec!["B", "A", "B"]));
    assert_eq!(classify_arg("_x9|y_|Z0z"), Arg::Flags(vec!["_x9", "y_", "Z0z"]));
    assert_eq!(classify_arg("NULL|A"), Arg::Flags(vec!["NULL", "A"]));
    assert_eq!(classify_arg("NULL|NULL"), Arg::Flags(vec!["NULL", "NULL"]));
    assert_eq!(classify_arg("a|b"), Arg::Flags(vec!["a", "b"]));
}

#[test]
fn one_identifier_alone_is_no_flag_set() {
    for token in ["AT_FDCWD", " AT_FDCWD", "O_RDONLY", "null", "NULLS", "_", "a", "\t x9"] {
        assert_eq!(classify_arg(token), Arg::String(token), "{token:?}");
    }
}

#[test]
fn null_word_is_a_null_pointer() {
    assert_eq!(classify_arg("NULL"), Arg::Null);
    assert_eq!(classify_arg(" NULL"), Arg::Null);
    assert_eq!(classify_arg("\t\n NULL"), Arg::Null);
}

#[test]
fn other_tokens_stay_as_they_are() {
    for token in [
        "",
        " ",
        "3",
        " 0x7ffd",
        " \"/etc/ld.so.cache\"",
        "O_RDONLY ",
        "NULL ",
        "A|",
        "|A",
        "A||B",
        "A| B",
        "A |B",
        "1A",
        "A|1B",
        "A-B",
        "A|B.C",
        "{st_mode=S_IFREG|0644",
        "\u{e9}",
        "A|\u{e9}",
        "\u{a0}A",
    ] {
        assert_eq!(classify_arg(token), Arg::String(token), "{token:?}");
    }
}
