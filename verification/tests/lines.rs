use strace_log_utils::error::{ParseErrorKind, ParseFailure};
use strace_log_utils::parser::{classify_arg, parse_log_line, parse_syscall_line, Arg, SysCall};

#[test]
fn parse_openat() {
    let s = r#"openat(AT_FDCWD, "/etc/ld.so.cache", O_RDONLY|O_CLOEXEC) = 3"#;
    let res = parse_syscall_line(s);
    assert_eq!(
        res,
        Ok((
            "",
            SysCall {
                name: "openat",
                args: vec!(
                    Arg::String("AT_FDCWD"),
                    Arg::String(" \"/etc/ld.so.cache\""),
                    Arg::Flags(vec!("O_RDONLY", "O_CLOEXEC")),
                ),
                result: 3
            }
        ))
    )
}

#[test]
fn log_line_gives_the_record_without_the_rest() {
    let s = r#"openat(AT_FDCWD, "/etc/ld.so.cache", O_RDONLY|O_CLOEXEC) = 3"#;
    let call = parse_log_line(s).unwrap();
    assert_eq!(call.name, "openat");
    assert_eq!(call.args.len(), 3);
    assert_eq!(call.args[0], Arg::String("AT_FDCWD"));
    assert_eq!(call.args[1], Arg::String(" \"/etc/ld.so.cache\""));
    assert_eq!(call.args[2], Arg::Flags(vec!["O_RDONLY", "O_CLOEXEC"]));
    assert_eq!(call.result, 3);
}

#[test]
fn call_without_arguments() {
    assert_eq!(
        parse_syscall_line("getpid() = 0"),
        Ok(("", SysCall { name: "getpid", args: vec![], result: 0 }))
    );
}

#[test]
fn negative_result() {
    let call = parse_log_line(r#"openat(AT_FDCWD, "/nowhere", O_RDONLY) = -1"#).unwrap();
    assert_eq!(call.result, -1);
    assert!(call.result < 0);
    assert_eq!(call.name, "openat");
    assert_eq!(call.args.len(), 3);
}

#[test]
fn name_result_and_number_of_arguments() {
    let call = parse_log_line("mmap(NULL,8192,PROT_READ|PROT_WRITE,MAP_PRIVATE|MAP_ANONYMOUS,-1,0)=42").unwrap();
    assert_eq!(call.name, "mmap");
    assert_eq!(call.result, 42);
    assert_eq!(
        call.args,
        vec![
            Arg::Null,
            Arg::String("8192"),
            Arg::Flags(vec!["PROT_READ", "PROT_WRITE"]),
            Arg::Flags(vec!["MAP_PRIVATE", "MAP_ANONYMOUS"]),
            Arg::String("-1"),
            Arg::String("0"),
        ]
    );
}

#[test]
fn empty_arguments_between_commas_are_kept() {
    let call = parse_log_line("f(,) = 1").unwrap();
    assert_eq!(call.args, vec![Arg::String(""), Arg::String("")]);
    let call = parse_log_line("f(a,) = 1").unwrap();
    assert_eq!(call.args, vec![Arg::String("a"), Arg::String("")]);
    let call = parse_log_line("f( ) = 1").unwrap();
    assert_eq!(call.args, vec![Arg::String(" ")]);
}

#[test]
fn whitespace_around_the_equals_sign_is_free() {
    for line in ["close(3)=0", "close(3) =0", "close(3)= 0", "close(3)  \t=\r\n 0"] {
        assert_eq!(
            parse_syscall_line(line),
            Ok(("", SysCall { name: "close", args: vec![Arg::String("3")], result: 0 })),
            "{line:?}"
        );
    }
}

#[test]
fn text_after_the_result_is_left_over() {
    let (rest, call) = parse_syscall_line("read(3) = -1 EAGAIN (Resource temporarily unavailable)").unwrap();
    assert_eq!(rest, " EAGAIN (Resource temporarily unavailable)");
    assert_eq!(call, SysCall { name: "read", args: vec![Arg::String("3")], result: -1 });
    let call = parse_log_line("getpid() = 7 <0.000012>").unwrap();
    assert_eq!(call.result, 7);
    let (rest, call) = parse_syscall_line("mmap(NULL) = 0x7f").unwrap();
    assert_eq!(rest, "x7f");
    assert_eq!(call.result, 0);
}

#[test]
fn the_first_closing_paren_ends_the_arguments() {
    assert_eq!(
        parse_log_line("wait4(-1, [{WIFEXITED(s) && WEXITSTATUS(s) == 0}], 0, NULL) = 9").unwrap_err().kind,
        ParseErrorKind::MissingSeparator
    );
    let (rest, call) = parse_syscall_line("f(g(1) = 2) = 3").unwrap();
    assert_eq!(call, SysCall { name: "f", args: vec![Arg::String("g(1")], result: 2 });
    assert_eq!(rest, ") = 3");
}

#[test]
fn commas_inside_quotes_split_too() {
    let call = parse_log_line(r#"write(1, "a,b", 3) = 3"#).unwrap();
    assert_eq!(
        call.args,
        vec![Arg::String("1"), Arg::String(" \"a"), Arg::String("b\""), Arg::String(" 3")]
    );
}

#[test]
fn text_outside_ascii_is_kept_whole() {
    let (rest, call) = parse_syscall_line("open(\"/tmp/\u{fc}\u{4e16}\u{1f980}\", O_RDONLY) = 3 \u{2713}").unwrap();
    assert_eq!(call.name, "open");
    assert_eq!(
        call.args,
        vec![Arg::String("\"/tmp/\u{fc}\u{4e16}\u{1f980}\""), Arg::String(" O_RDONLY")]
    );
    assert_eq!(call.result, 3);
    assert_eq!(rest, " \u{2713}");
    let call = parse_log_line("\u{e9}t\u{e9}(\u{e9}) = 1").unwrap();
    assert_eq!(call.name, "\u{e9}t\u{e9}");
    assert_eq!(call.args, vec![Arg::String("\u{e9}")]);
}

#[test]
fn line_without_opening_paren() {
    let line = "not_a_syscall = 1";
    assert_eq!(
        parse_log_line(line),
        Err(ParseFailure { line, kind: ParseErrorKind::MissingDelimiter })
    );
    assert_eq!(parse_syscall_line(line), Err(ParseErrorKind::MissingDelimiter));
    assert_eq!(parse_syscall_line("+++ exited with 0 +++"), Err(ParseErrorKind::MissingDelimiter));
    assert_eq!(parse_syscall_line(""), Err(ParseErrorKind::MissingDelimiter));
}

#[test]
fn line_without_a_name() {
    assert_eq!(parse_syscall_line("() = 0"), Err(ParseErrorKind::MissingDelimiter));
    assert_eq!(parse_syscall_line("(a, b) = 0"), Err(ParseErrorKind::MissingDelimiter));
}

#[test]
fn line_without_closing_paren() {
    assert_eq!(parse_syscall_line("close(3 = 0"), Err(ParseErrorKind::MissingDelimiter));
    assert_eq!(parse_syscall_line("close("), Err(ParseErrorKind::MissingDelimiter));
    assert_eq!(parse_syscall_line("read(3, \"abc\", 3"), Err(ParseErrorKind::MissingDelimiter));
}

#[test]
fn line_without_equals_sign() {
    for line in ["close(3)", "close(3) ", "close(3) 0", "close(3) - 0", "exit(0) ?"] {
        assert_eq!(
            parse_log_line(line),
            Err(ParseFailure { line, kind: ParseErrorKind::MissingSeparator }),
            "{line:?}"
        );
    }
}

#[test]
fn line_without_a_number() {
    for line in [
        "close(3) =",
        "close(3) = ",
        "close(3) = ?",
        "close(3) = abc",
        "close(3) = -",
        "close(3) = - 1",
        "close(3) = +1",
        "close(3) = x10",
    ] {
        assert_eq!(
            parse_log_line(line),
            Err(ParseFailure { line, kind: ParseErrorKind::MalformedResult }),
            "{line:?}"
        );
    }
}

#[test]
fn result_at_the_edges_of_its_range() {
    assert_eq!(parse_log_line("f() = 127").unwrap().result, 127);
    assert_eq!(parse_log_line("f() = -128").unwrap().result, -128);
    assert_eq!(parse_log_line("f() = 0000127").unwrap().result, 127);
    assert_eq!(parse_log_line("f() = -0").unwrap().result, 0);
    for line in [
        "f() = 128",
        "f() = -129",
        "f() = 832",
        "f() = 1000",
        "f() = 4294967296",
        "f() = 99999999999999999999999999999999999999999",
        "f() = -99999999999999999999999999999999999999999",
    ] {
        assert_eq!(
            parse_log_line(line).unwrap_err().kind,
            ParseErrorKind::MalformedResult,
            "{line:?}"
        );
    }
}

#[test]
fn parsing_twice_gives_the_same() {
    for line in [
        r#"openat(AT_FDCWD, "/etc/ld.so.cache", O_RDONLY|O_CLOEXEC) = 3"#,
        "getpid() = 0",
        "not_a_syscall = 1",
        "close(3) = abc",
        "close(3)",
    ] {
        let first = parse_log_line(line);
        let second = parse_log_line(line);
        assert_eq!(first, second);
        let copy = String::from(line);
        assert_eq!(parse_log_line(&copy), first);
    }
}

#[test]
fn one_bad_line_does_not_stop_the_others() {
    let log = "getpid() = 1\nnot_a_syscall = 1\nclose(3) = 0\nclose(4) = x";
    let outcomes: Vec<_> = log.lines().map(parse_log_line).collect();
    assert_eq!(outcomes.len(), 4);
    assert_eq!(outcomes[0].as_ref().unwrap().name, "getpid");
    assert_eq!(outcomes[1].as_ref().unwrap_err().kind, ParseErrorKind::MissingDelimiter);
    assert_eq!(outcomes[2].as_ref().unwrap().name, "close");
    assert_eq!(outcomes[3].as_ref().unwrap_err().kind, ParseErrorKind::MalformedResult);
}

#[test]
fn failure_message_names_the_line_and_the_cause() {
    let failure = parse_log_line("not_a_syscall = 1").unwrap_err();
    assert_eq!(failure.line, "not_a_syscall = 1");
    assert_eq!(
        failure.message(),
        "Could not parse not_a_syscall = 1: no `(` after a syscall name, or no `)` to close the argument list"
    );
    assert_eq!(
        parse_log_line("close(3)").unwrap_err().message(),
        "Could not parse close(3): no `=` between the argument list and the result"
    );
    assert_eq!(
        parse_log_line("close(3) = x").unwrap_err().message(),
        "Could not parse close(3) = x: the result is not a decimal number that fits"
    );
}

#[test]
fn each_kind_has_its_own_description() {
    assert_eq!(
        ParseErrorKind::MissingDelimiter.describe(),
        "no `(` after a syscall name, or no `)` to close the argument list"
    );
    assert_eq!(
        ParseErrorKind::MissingSeparator.describe(),
        "no `=` between the argument list and the result"
    );
    assert_eq!(
        ParseErrorKind::MalformedResult.describe(),
        "the result is not a decimal number that fits"
    );
}

fn render(name: &str, args: &[&str], before: &str, after: &str, numeral: &str) -> String {
    format!("{name}({}){before}={after}{numeral}", args.join(","))
}

#[test]
fn rendered_lines_are_read_back() {
    let names = ["openat", "f", "rt_sigaction", "a b", "\u{e9}"];
    let lists: [&[&str]; 6] = [
        &[],
        &["x"],
        &["", ""],
        &["AT_FDCWD", " \"/etc/ld.so.cache\"", " O_RDONLY|O_CLOEXEC"],
        &["NULL", " NULL", "NULL "],
        &[" ", "(", "=", "-1"],
    ];
    let gaps = ["", " ", "\t\r\n "];
    let numerals = [("0", 0i8), ("-1", -1), ("127", 127), ("-128", -128), ("0042", 42), ("-0", 0)];
    let tails = ["", " ENOENT", "x", "-", " 1"];
    for name in names {
        for args in lists {
            for before in gaps {
                for after in gaps {
                    for (numeral, value) in numerals {
                        for tail in tails {
                            let line = render(name, args, before, after, numeral) + tail;
                            let (rest, call) = parse_syscall_line(&line).unwrap();
                            assert_eq!(rest, tail, "{line:?}");
                            assert_eq!(call.name, name, "{line:?}");
                            assert_eq!(call.result, value, "{line:?}");
                            assert_eq!(call.args.len(), args.len(), "{line:?}");
                            for (arg, text) in call.args.iter().zip(args) {
                                assert_eq!(*arg, classify_arg(text), "{line:?}");
                            }
                        }
                    }
                }
            }
        }
    }
}
