use rust_casl2::cli::{format_word, init_opts, render};

#[test]
fn options_are_help_and_dry_run() {
    let mut opts = getopts::Options::new();
    init_opts(&mut opts);
    let m = opts.parse(&["-d", "prog.casl2"]).unwrap();
    assert!(m.opt_present("d"));
    assert!(m.opt_present("dry-run"));
    assert!(!m.opt_present("h"));
    assert_eq!(m.free, vec!["prog.casl2".to_string()]);
    let m = opts.parse(&["--help"]).unwrap();
    assert!(m.opt_present("h"));
    assert!(!m.opt_present("d"));
    let m = opts.parse(&["-h", "--dry-run"]).unwrap();
    assert!(m.opt_present("help"));
    assert!(m.opt_present("d"));
    let m = opts.parse(&["prog.casl2"]).unwrap();
    assert!(!m.opt_present("h"));
    assert!(!m.opt_present("d"));
    assert!(opts.parse(&["-x"]).is_err());
    assert!(opts.parse(&["-d", "-d"]).is_err());
    assert!(opts.parse(&["--dry-run=1"]).is_err());
}

#[test]
fn options_are_declared_in_order_with_their_descriptions() {
    let mut opts = getopts::Options::new();
    init_opts(&mut opts);
    let usage = opts.usage("usage");
    let help = usage.find("print this help menu").unwrap();
    let dry = usage.find("only print machine code").unwrap();
    assert!(help < dry);
    assert!(usage.contains("-h, --help"));
    assert!(usage.contains("-d, --dry-run"));
    let mut expected = getopts::Options::new();
    expected.optflag("h", "help", "print this help menu");
    expected.optflag("d", "dry-run", "only print machine code");
    assert!(opts == expected);
    assert!(opts != getopts::Options::new());
}

#[test]
fn options_take_no_argument_and_may_be_left_out() {
    let mut opts = getopts::Options::new();
    init_opts(&mut opts);
    let m = opts.parse(&["-d", "value"]).unwrap();
    assert_eq!(m.opt_str("d"), None);
    assert_eq!(m.free, vec!["value".to_string()]);
    let m = opts.parse(&["--help", "value"]).unwrap();
    assert_eq!(m.opt_str("h"), None);
    assert_eq!(m.free, vec!["value".to_string()]);
    assert!(opts.parse(&["--help=value"]).is_err());
    let m = opts.parse(&[] as &[&str]).unwrap();
    assert!(!m.opt_present("h"));
    assert!(!m.opt_present("d"));
    let mut with_argument = getopts::Options::new();
    with_argument.optopt("h", "help", "print this help menu", "");
    with_argument.optflag("d", "dry-run", "only print machine code");
    assert!(opts != with_argument);
    let mut required = getopts::Options::new();
    required.optflag("h", "help", "print this help menu");
    required.reqopt("d", "dry-run", "only print machine code", "");
    assert!(opts != required);
}

#[test]
fn options_go_behind_those_that_are_there() {
    let mut opts = getopts::Options::new();
    opts.optflag("v", "verbose", "say more");
    init_opts(&mut opts);
    let m = opts.parse(&["-v", "-d"]).unwrap();
    assert!(m.opt_present("v"));
    assert!(m.opt_present("d"));
    let mut expected = getopts::Options::new();
    expected.optflag("v", "verbose", "say more");
    expected.optflag("h", "help", "print this help menu");
    expected.optflag("d", "dry-run", "only print machine code");
    assert!(opts == expected);
}

#[test]
fn words_are_four_hexadecimal_digits() {
    assert_eq!(format_word(0), "0000");
    assert_eq!(format_word(0x00ab), "00ab");
    assert_eq!(format_word(0x1010), "1010");
    assert_eq!(format_word(0xffff), "ffff");
    assert_eq!(format_word(0xA0C), "0a0c");
    let mut w: u32 = 0;
    while w <= 0xffff {
        assert_eq!(format_word(w as u16), format!("{:0>4x}", w));
        w += 1;
    }
}

#[test]
fn words_are_written_one_on_each_line() {
    assert_eq!(render(&vec![]), "");
    assert_eq!(render(&vec![1]), "0001\n");
    assert_eq!(render(&vec![2, 0x1010, 2, 5]), "0002\n1010\n0002\n0005\n");
}
