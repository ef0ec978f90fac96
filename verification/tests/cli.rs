use inkling::cli::{parse_hex, parse_u16, parse_u64, read_token, ArgParser, DepthChoice, LineAction, OrderingChoice, Step};
use inkling::easing::Easing;
use inkling::ordering::StartHint;
use inkling::render::ColorDepth;

fn args(list: &[&str]) -> Vec<String> {
    list.iter().map(|s| s.to_string()).collect()
}

/// Run the parser to the end, collecting feather values along the way.
fn parse(list: &[&str]) -> (ArgParser, Result<Vec<String>, String>) {
    let a = args(list);
    let mut p = ArgParser::new();
    let mut feathers = Vec::new();
    loop {
        match p.step(&a) {
            Step::Next => {}
            Step::Done => return (p, Ok(feathers)),
            Step::Feather(v) => feathers.push(v),
            Step::Usage(m) => return (p, Err(m)),
            Step::Help => return (p, Err("help".into())),
            Step::Version => return (p, Err("version".into())),
        }
    }
}

#[test]
fn options_take_values_inline_or_next() {
    let (p, r) = parse(&["--total", "100", "-a", "snake.txt", "--message=hello", "--start=bottom", "--bridge", "3"]);
    assert!(r.is_ok());
    assert_eq!(p.opts.total, Some(100));
    assert_eq!(p.opts.art.as_deref(), Some("snake.txt"));
    assert_eq!(p.opts.message, "hello");
    assert_eq!(p.opts.start, StartHint::Bottom);
    assert_eq!(p.opts.bridge, 3);
}

#[test]
fn flags_set_the_reveal_and_colour() {
    let (p, r) = parse(&["--rainbow", "--light", "--geodesic", "--no-color", "--easing", "ease-out-quint", "--head", "#ffe28a", "--body=7886A8"]);
    assert!(r.is_ok());
    assert!(p.opts.rainbow && p.opts.light);
    assert_eq!(p.opts.ordering, OrderingChoice::Geodesic);
    assert_eq!(p.opts.depth, Some(DepthChoice::Fixed(ColorDepth::Mono)));
    assert_eq!(p.opts.easing, Easing::EaseOutQuint);
    assert_eq!(p.opts.head, Some((0xff, 0xe2, 0x8a)));
    assert_eq!(p.opts.body, Some((0x78, 0x86, 0xa8)));
    let (p, _) = parse(&["--color", "auto", "--rtl"]);
    assert_eq!(p.opts.depth, Some(DepthChoice::Detect));
    assert_eq!(p.opts.ordering, OrderingChoice::Rtl);
}

#[test]
fn a_long_option_does_not_swallow_a_longer_word() {
    let (_, r) = parse(&["--totally", "5"]);
    assert_eq!(r, Err("unknown argument '--totally'".to_string()));
}

#[test]
fn bad_values_are_usage_errors() {
    assert_eq!(parse(&["--total", "abc"]).1, Err("--total needs a whole number, got 'abc'".to_string()));
    assert_eq!(parse(&["--total"]).1, Err("'--total' needs a value".to_string()));
    assert_eq!(parse(&["--bridge", "70000"]).1, Err("--bridge needs a whole number, got '70000'".to_string()));
    assert_eq!(
        parse(&["--start", "middle"]).1,
        Err("unknown --start 'middle' (top-left, bottom, topological)".to_string())
    );
    assert_eq!(
        parse(&["--color=8"]).1,
        Err("unknown --color '8' (auto, truecolor, 256, 16, none)".to_string())
    );
    assert_eq!(parse(&["--head", "ffe28"]).1, Err("--head needs a colour like ffe28a, got 'ffe28'".to_string()));
}

#[test]
fn help_and_version_stop_parsing() {
    assert_eq!(parse(&["-h", "--bogus"]).1, Err("help".to_string()));
    assert_eq!(parse(&["--total", "3", "-V"]).1, Err("version".to_string()));
}

#[test]
fn feather_values_are_handed_back() {
    let (p, r) = parse(&["--feather", "0.2", "--feather=0", "--total", "7"]);
    assert_eq!(r, Ok(vec!["0.2".to_string(), "0".to_string()]));
    assert_eq!(p.opts.total, Some(7));
}

#[test]
fn numbers_parse_as_rust_does() {
    for s in ["0", "42", "+7", "18446744073709551615", "", "+", "-1", "1 ", "18446744073709551616", "0x10", "٣"] {
        assert_eq!(parse_u64(s), s.parse::<u64>().ok(), "{s:?}");
        assert_eq!(parse_u16(s), s.parse::<u16>().ok(), "{s:?}");
    }
    assert_eq!(parse_u16("65535"), Some(65535));
    assert_eq!(parse_u16("65536"), None);
}

#[test]
fn hex_colours_are_six_hex_digits() {
    assert_eq!(parse_hex("ffe28a", "--head"), Ok((0xff, 0xe2, 0x8a)));
    assert_eq!(parse_hex("#7886a8", "--body"), Ok((0x78, 0x86, 0xa8)));
    assert_eq!(parse_hex("+f+f+f", "--head"), Err("--head needs a colour like ffe28a, got '+f+f+f'".to_string()));
    assert_eq!(parse_hex("FFE28A", "--head"), Ok((0xff, 0xe2, 0x8a)));
    assert_eq!(parse_hex("##ffffff", "--head"), Err("--head needs a colour like ffe28a, got '##ffffff'".to_string()));
    assert_eq!(parse_hex("ééé", "--head"), Err("--head needs a colour like ffe28a, got 'ééé'".to_string()));
    assert!(parse_hex("gg0000", "--head").is_err());
}

#[test]
fn a_colour_with_wide_characters_is_a_usage_error() {
    assert_eq!(parse_hex("aé123", "--head"), Err("--head needs a colour like ffe28a, got 'aé123'".to_string()));
    let (_, r) = parse(&["--head", "aébé"]);
    assert_eq!(r, Err("--head needs a colour like ffe28a, got 'aébé'".to_string()));
}

#[test]
fn progress_lines_mean_what_the_protocol_says() {
    assert!(matches!(read_token("  \t "), LineAction::Skip));
    assert!(matches!(read_token("42\n"), LineAction::Jump(42)));
    assert!(matches!(read_token("+5"), LineAction::Inc(5)));
    assert!(matches!(read_token("+ 5"), LineAction::Inc(5)));
    assert!(matches!(read_token("++5"), LineAction::Inc(5)));
    match read_token("  compiling crate  ") {
        LineAction::Message(m) => assert_eq!(m, "compiling crate"),
        other => panic!("unexpected {other:?}"),
    }
    match read_token("+") {
        LineAction::Message(m) => assert_eq!(m, "+"),
        other => panic!("unexpected {other:?}"),
    }
}
