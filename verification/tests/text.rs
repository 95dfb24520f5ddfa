use pool_miner::plan::{MineArgs, Plan};
use pool_miner::text::{chars_of, parse_u64, push_decimal, split_list, white_space};

#[test]
fn numbers_are_parsed_as_std_does() {
    let texts = [
        "", "+", "-", "0", "-0", "+0", "007", "42", "+42", "++42", " 42", "42 ", "42\n", "4_2", "4.2",
        "0x10", "18446744073709551615", "18446744073709551616", "99999999999999999999",
        "000000000000000000000000000001", "184467440737095516150", "\u{0661}", "1\u{00e9}",
    ];
    for text in texts {
        assert_eq!(parse_u64(text), text.parse::<u64>().ok(), "{:?}", text);
    }
}

#[test]
fn numbers_are_printed_and_read_back() {
    for n in [0u64, 9, 10, 99, 100, 1_000_000_007, u64::MAX] {
        let mut text = "n=".to_string();
        push_decimal(&mut text, n);
        assert_eq!(text, format!("n={}", n));
        assert_eq!(parse_u64(&text[2..]), Some(n));
    }
}

#[test]
fn white_space_is_that_of_unicode() {
    for n in 0u32..0x11_0000 {
        if let Some(c) = char::from_u32(n) {
            assert_eq!(white_space(c), c.is_whitespace(), "{:?}", c);
        }
    }
}

#[test]
fn lists_are_split_and_trimmed() {
    let texts = [
        "",
        ",",
        "a",
        "a,b",
        " a , b\t,\u{3000}c d\u{2003}",
        "a,,b,",
        "  ,  ",
        "h\u{00f6}st:1, \u{4e2d}\u{6587}",
        "\u{200b}x\u{200b}",
    ];
    for text in texts {
        let expected: Vec<String> = text.split(',').map(|s| s.trim().to_string()).collect();
        assert_eq!(split_list(text), expected, "{:?}", text);
    }
    assert_eq!(split_list(" a , b "), vec!["a".to_string(), "b".to_string()]);
}

#[test]
fn characters_of_a_text() {
    assert_eq!(chars_of("a\u{00e9}\u{1f600}"), vec!['a', '\u{00e9}', '\u{1f600}']);
}

#[test]
fn plan_of_options() {
    let args = MineArgs { cores: 4, address: "abc".to_string(), cutoff: 30 };
    let plan = Plan::new(args, "one:80, two:81");
    assert_eq!(plan.address, "abc");
    assert_eq!(plan.threads, 4);
    assert_eq!(plan.max_cutoff, 30);
    assert_eq!(plan.servers, vec!["one:80".to_string(), "two:81".to_string()]);
}

#[test]
fn plans_of_the_same_options() {
    let args = MineArgs { cores: 2, address: "abc".to_string(), cutoff: 9 };
    let (one, two) = (Plan::new(args.clone(), "a, b"), Plan::new(args, "a, b"));
    assert_eq!((one.address, one.threads), (two.address, two.threads));
    assert_eq!((one.max_cutoff, one.servers), (two.max_cutoff, two.servers));
}

#[test]
fn joined_items_are_the_list() {
    let list = "one:80,two:81,,three";
    let items = split_list(list);
    assert_eq!(items.join(","), list);
    assert!(items.iter().all(|item| !item.contains(',')));
}
