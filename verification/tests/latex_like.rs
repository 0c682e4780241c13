use japanese_ruby_filter::latex_like::{
    command_ruby, execute_command_ruby, find_close_brace, make_ruby_for_each_char,
    match_macro_name, parse_command, parse_command_name, split_at_bars, split_at_chars,
    take_next_command, take_next_command_inner, Arguments, ArityTable, Command, CommandError,
    LatexLikeFilter, RubyError,
};
use japanese_ruby_filter::{Filtered, Ruby};

#[test]
fn filter_text1() {
    let s = "Hello, \\ruby{世|界}{せ|かい}!!";
    let mut iter = LatexLikeFilter::new(s);
    assert_eq!(iter.next(), Some(Ok(Filtered::Plain("Hello, "))));
    assert_eq!(
        iter.next(),
        Some(Ok(Filtered::Ruby(Ruby::from_str_vecs(vec!["世", "界"], vec!["せ", "かい"]))))
    );
    assert_eq!(iter.next(), Some(Ok(Filtered::Plain("!!"))));
    assert_eq!(iter.next(), None);
}

#[test]
fn filter_text2() {
    let s = "\\ruby{大名}{だい|みょう}は\\ruby{武|家|諸|法度}{ぶ|け|しょ|はっと}などによる統制を受けた。";
    let ruby1 = Ruby::from_str_vecs(vec!["大", "名"], vec!["だい", "みょう"]);
    let ruby2 =
        Ruby::from_str_vecs(vec!["武", "家", "諸", "法度"], vec!["ぶ", "け", "しょ", "はっと"]);
    let mut iter = LatexLikeFilter::new(s);
    assert_eq!(iter.next(), Some(Ok(Filtered::Ruby(ruby1))));
    assert_eq!(iter.next(), Some(Ok(Filtered::Plain("は"))));
    assert_eq!(iter.next(), Some(Ok(Filtered::Ruby(ruby2))));
    assert_eq!(iter.next(), Some(Ok(Filtered::Plain("などによる統制を受けた。"))));
    assert_eq!(iter.next(), None);
}

#[test]
fn filter_tailing_ruby() {
    let s = "これは\\ruby{鶏}{にわとり}";
    let mut iter = LatexLikeFilter::new(s);
    assert_eq!(iter.next(), Some(Ok(Filtered::Plain("これは"))));
    assert_eq!(
        iter.next(),
        Some(Ok(Filtered::Ruby(Ruby::from_str_vecs(vec!["鶏"], vec!["にわとり"]))))
    );
    assert_eq!(iter.next(), None);
}

#[test]
fn ruby_of_two_groups() {
    let base = "小|早川";
    let ruby = "こ|ばやかわ";
    let expected = Ruby::from_str_vecs(vec!["小", "早川"], vec!["こ", "ばやかわ"]);
    assert_eq!(command_ruby(base, ruby), Ok(expected));
}

#[test]
fn ruby_of_one_base_group() {
    let base = "最高";
    let ruby = "さい|こう";
    let expected = RubyError::NumberMismatch(1, 2);
    assert_eq!(command_ruby(base, ruby), Err(expected));
}

#[test]
fn ruby_of_each_char() {
    let base = "最高";
    let ruby = "さい|こう";
    let expected = Ruby::from_str_vecs(vec!["最", "高"], vec!["さい", "こう"]);
    assert_eq!(make_ruby_for_each_char(base, ruby), Ok(expected));
}

#[test]
fn match_ruby_macro() {
    let s = "\\ruby{漢字}{かんじ}";
    assert_eq!(match_macro_name(s), (Some("ruby"), "{漢字}{かんじ}"));
}

#[test]
fn find_close_brace_normal() {
    let s = "{漢字}";
    assert_eq!(find_close_brace(s), Some(7));
}

#[test]
fn parse_two_arguments() {
    let s = "{漢字}{かんじ}です";
    let mut args = Arguments::new(s);
    assert_eq!(args.next(), Some("漢字"));
    assert_eq!(args.current_head(), 8);
    assert_eq!(args.next(), Some("かんじ"));
    assert_eq!(args.next(), None);
    assert_eq!(args.next(), None);
    assert_eq!(args.current_head(), 19);
    assert_eq!(&s[args.current_head()..], "です");
}

#[test]
fn parse_unclosed_argument() {
    let mut args = Arguments::new("{漢字}{かんじです");
    assert_eq!(args.next(), Some("漢字"));
    assert_eq!(args.next(), None);
    assert_eq!(args.next(), None);
    assert_eq!(args.current_head(), 8);
}

#[test]
fn parse_one_command() {
    let s = "\\cmd{aaa} world!";
    let table = [("cmd", 1usize)];
    assert_eq!(
        parse_command(s, &table[..]),
        Ok((9, Command { name: "cmd", args: vec!["aaa"] }))
    );
}

#[test]
fn parse_command_name_followed_by_brace() {
    assert_eq!(parse_command_name("\\cmd{abc}"), Some(4));
    assert_eq!(parse_command_name("\\ruby{abc}"), Some(5));
}

#[test]
fn parse_command_name_followed_by_space() {
    assert_eq!(parse_command_name("\\nop abc"), Some(4));
}

#[test]
fn take_next_one_command() {
    let s = "Hello, \\cmd{world}!";
    let table = [("cmd", 1usize)];
    assert_eq!(
        take_next_command(s, &table[..]),
        Some(("Hello, ", Command { name: "cmd", args: vec!["world"] }, "!"))
    );
    let s = "これは\\ruby{漢字}{かんじ}のルビです。";
    let table = [("ruby", 2usize)];
    assert_eq!(
        take_next_command(s, &table[..]),
        Some(("これは", Command { name: "ruby", args: vec!["漢字", "かんじ"] }, "のルビです。"))
    );
}

#[test]
fn try_to_take_command_from_no_command() {
    let s = "Hello, world!";
    let table = [("cmd", 1usize)];
    assert_eq!(take_next_command(s, &table[..]), None);
}

#[test]
fn close_brace_after_escapes() {
    assert_eq!(find_close_brace("{a\\}b}"), Some(5));
    assert_eq!(find_close_brace("{a\\\\}b}"), Some(4));
    assert_eq!(find_close_brace("{a\\\\\\}b}"), Some(7));
    assert_eq!(find_close_brace("}"), Some(0));
    assert_eq!(find_close_brace("\\}"), None);
    assert_eq!(find_close_brace("{abc"), None);
    assert_eq!(find_close_brace(""), None);
}

#[test]
fn argument_keeps_escaped_brace() {
    let mut args = Arguments::new("{a\\}b}{c}");
    assert_eq!(args.next(), Some("a\\}b"));
    assert_eq!(args.current_head(), 6);
    assert_eq!(args.next(), Some("c"));
    assert_eq!(args.current_head(), 9);
    assert_eq!(args.into_inner(), "{a\\}b}{c}");
}

#[test]
fn argument_needs_opening_brace_at_head() {
    let mut args = Arguments::new("x{a}");
    assert_eq!(args.next(), None);
    assert_eq!(args.current_head(), 0);
    let mut args = Arguments::with_position("x{a}", 1);
    assert_eq!(args.next(), Some("a"));
    assert_eq!(args.current_head(), 4);
    assert_eq!(args.next(), None);
    assert_eq!(args.current_head(), 4);
}

#[test]
fn empty_argument_is_read() {
    let mut args = Arguments::new("{}{}");
    assert_eq!(args.next(), Some(""));
    assert_eq!(args.current_head(), 2);
    assert_eq!(args.next(), Some(""));
    assert_eq!(args.current_head(), 4);
}

#[test]
fn read_exactly_two_arguments() {
    let mut args = Arguments::new("{漢字}{かんじ}です");
    assert_eq!(args.read_exactly(2), Some(vec!["漢字", "かんじ"]));
    assert_eq!(args.current_head(), 19);
}

#[test]
fn read_exactly_refuses_one_argument_more() {
    let mut args = Arguments::new("{a}{b}{c}");
    assert_eq!(args.read_exactly(2), None);
    assert_eq!(args.current_head(), 0);
    assert_eq!(args.read_exactly(3), Some(vec!["a", "b", "c"]));
    assert_eq!(args.current_head(), 9);
}

#[test]
fn read_exactly_refuses_an_opening_brace_that_follows() {
    let mut args = Arguments::new("{a}{b}{c");
    assert_eq!(args.read_exactly(2), None);
    assert_eq!(args.current_head(), 0);
}

#[test]
fn read_exactly_refuses_too_few_arguments() {
    let mut args = Arguments::new("{a}x{b}");
    assert_eq!(args.read_exactly(2), None);
    assert_eq!(args.current_head(), 0);
    assert_eq!(args.read_exactly(1), Some(vec!["a"]));
    assert_eq!(args.current_head(), 3);
}

#[test]
fn read_exactly_none_reads_nothing() {
    let mut args = Arguments::new("abc");
    assert_eq!(args.read_exactly(0), Some(vec![]));
    assert_eq!(args.current_head(), 0);
    let mut args = Arguments::new("{a}");
    assert_eq!(args.read_exactly(0), None);
    assert_eq!(args.current_head(), 0);
}

#[test]
fn cloned_cursor_reads_the_same() {
    let mut args = Arguments::new("{a}{b}");
    assert_eq!(args.next(), Some("a"));
    let mut copy = args.clone();
    assert_eq!(copy.current_head(), 3);
    assert_eq!(copy.next(), Some("b"));
    assert_eq!(args.current_head(), 3);
}

#[test]
fn command_name_needs_backslash_and_letter() {
    assert_eq!(parse_command_name(""), None);
    assert_eq!(parse_command_name("\\"), None);
    assert_eq!(parse_command_name("ruby"), None);
    assert_eq!(parse_command_name("\\1abc"), None);
    assert_eq!(parse_command_name("\\{"), None);
    assert_eq!(parse_command_name("\\漢字"), None);
    assert_eq!(parse_command_name("a\\ruby"), None);
}

#[test]
fn command_name_ends_at_first_non_letter() {
    assert_eq!(parse_command_name("\\ruby"), Some(5));
    assert_eq!(parse_command_name("\\a"), Some(2));
    assert_eq!(parse_command_name("\\ruby2{a}"), Some(5));
    assert_eq!(parse_command_name("\\Ruby漢字"), Some(5));
    assert_eq!(parse_command_name("\\ab\\cd"), Some(3));
    assert_eq!(parse_command_name("\\az@"), Some(3));
    assert_eq!(parse_command_name("\\AZ["), Some(3));
}

#[test]
fn macro_name_takes_letters_and_digits() {
    assert_eq!(match_macro_name("\\h1 x"), (Some("h1"), " x"));
    assert_eq!(match_macro_name("\\ruby"), (Some("ruby"), ""));
    assert_eq!(match_macro_name("\\{a}"), (Some(""), "{a}"));
    assert_eq!(match_macro_name("\\"), (Some(""), ""));
    assert_eq!(match_macro_name("ruby"), (None, "ruby"));
    assert_eq!(match_macro_name(""), (None, ""));
    assert_eq!(match_macro_name("\\漢字"), (Some(""), "漢字"));
}

#[test]
fn first_entry_of_a_name_wins() {
    let table = [("ruby", 2usize), ("cmd", 1), ("ruby", 3)];
    assert_eq!(table[..].get_arity("ruby"), Some(2));
    assert_eq!(table[..].get_arity("cmd"), Some(1));
    assert_eq!(table[..].get_arity("rub"), None);
    assert_eq!(table[..].get_arity("rubyy"), None);
    assert_eq!(table[..].get_arity(""), None);
    let empty: [(&str, usize); 0] = [];
    assert_eq!(empty[..].get_arity("ruby"), None);
}

#[test]
fn parse_command_says_where_to_try_again() {
    let table = [("ruby", 2usize)];
    assert_eq!(parse_command("", &table[..]), Err(1));
    assert_eq!(parse_command("abc", &table[..]), Err(1));
    assert_eq!(parse_command("é\\ruby{a}{b}", &table[..]), Err(2));
    assert_eq!(parse_command("漢\\ruby{a}{b}", &table[..]), Err(3));
    assert_eq!(parse_command("𠮷\\ruby{a}{b}", &table[..]), Err(4));
    assert_eq!(parse_command("\\rubi{a}{b}", &table[..]), Err(1));
    assert_eq!(parse_command("\\ruby{a}", &table[..]), Err(1));
    assert_eq!(parse_command("\\ruby{a}{b", &table[..]), Err(1));
    assert_eq!(parse_command("\\ruby{a}{b}{c}", &table[..]), Err(1));
    assert_eq!(parse_command("\\ruby {a}{b}", &table[..]), Err(1));
}

#[test]
fn parse_command_without_arguments() {
    let table = [("nop", 0usize)];
    assert_eq!(
        parse_command("\\nop abc", &table[..]),
        Ok((4, Command { name: "nop", args: vec![] }))
    );
    assert_eq!(parse_command("\\nop{abc}", &table[..]), Err(1));
}

#[test]
fn scanner_resumes_one_byte_after_a_refused_name() {
    let table = [("b", 1usize), ("ab", 2)];
    assert_eq!(take_next_command("\\ab{x}", &table[..]), None);
    let table = [("ruby", 2usize)];
    assert_eq!(
        take_next_command("\\ruby{a}\\ruby{b}{c}", &table[..]),
        Some(("\\ruby{a}", Command { name: "ruby", args: vec!["b", "c"] }, ""))
    );
    assert_eq!(
        take_next_command("\\ruby漢\\ruby{a}{b}!", &table[..]),
        Some(("\\ruby漢", Command { name: "ruby", args: vec!["a", "b"] }, "!"))
    );
}

#[test]
fn scanner_starts_at_the_offset_given() {
    let s = "\\ruby{a}{b}と\\ruby{c}{d}";
    let table = [("ruby", 2usize)];
    assert_eq!(
        take_next_command_inner(s, &table[..], 0),
        Some(("", Command { name: "ruby", args: vec!["a", "b"] }, "と\\ruby{c}{d}"))
    );
    assert_eq!(
        take_next_command_inner(s, &table[..], 1),
        Some(("\\ruby{a}{b}と", Command { name: "ruby", args: vec!["c", "d"] }, ""))
    );
    assert_eq!(take_next_command_inner(s, &table[..], 12), None);
    assert_eq!(take_next_command_inner(s, &table[..], 15), None);
    assert_eq!(take_next_command_inner(s, &table[..], s.len()), None);
    assert_eq!(take_next_command_inner(s, &table[..], s.len() + 1), None);
}

#[test]
fn bars_cut_into_one_part_more_than_there_are_bars() {
    assert_eq!(split_at_bars("a|b|c"), vec!["a", "b", "c"]);
    assert_eq!(split_at_bars(""), vec![""]);
    assert_eq!(split_at_bars("|"), vec!["", ""]);
    assert_eq!(split_at_bars("|a||b|"), vec!["", "a", "", "b", ""]);
    assert_eq!(split_at_bars("武|家|諸|法度"), vec!["武", "家", "諸", "法度"]);
}

#[test]
fn characters_are_cut_whatever_their_width() {
    assert_eq!(split_at_chars("aé漢𠮷"), vec!["a", "é", "漢", "𠮷"]);
    assert_eq!(split_at_chars(""), Vec::<&str>::new());
    assert_eq!(split_at_chars("|"), vec!["|"]);
}

#[test]
fn group_numbers_are_reported() {
    assert_eq!(command_ruby("a|b|c", "x"), Err(RubyError::NumberMismatch(3, 1)));
    assert_eq!(command_ruby("", ""), Ok(Ruby::from_str_vecs(vec![""], vec![""])));
    assert_eq!(make_ruby_for_each_char("最高", "さい"), Err(RubyError::NumberMismatch(2, 1)));
    assert_eq!(make_ruby_for_each_char("", "x"), Err(RubyError::NumberMismatch(0, 1)));
    assert_eq!(
        make_ruby_for_each_char("a|b", "x|y|z"),
        Ok(Ruby::from_str_vecs(vec!["a", "|", "b"], vec!["x", "y", "z"]))
    );
}

#[test]
fn ruby_command_is_taken_by_group_then_by_character() {
    let by_group = Command { name: "ruby", args: vec!["武|家", "ぶ|け"] };
    assert_eq!(
        execute_command_ruby(by_group),
        Ok(Ruby::from_str_vecs(vec!["武", "家"], vec!["ぶ", "け"]))
    );
    let by_character = Command { name: "ruby", args: vec!["大名", "だい|みょう"] };
    assert_eq!(
        execute_command_ruby(by_character),
        Ok(Ruby::from_str_vecs(vec!["大", "名"], vec!["だい", "みょう"]))
    );
    let one_group = Command { name: "ruby", args: vec!["漢字", "かんじ"] };
    assert_eq!(
        execute_command_ruby(one_group),
        Ok(Ruby::from_str_vecs(vec!["漢字"], vec!["かんじ"]))
    );
    let neither = Command { name: "ruby", args: vec!["大名", "だ|い|みょう"] };
    assert_eq!(execute_command_ruby(neither), Err(RubyError::NumberMismatch(2, 3)));
    let several = Command { name: "ruby", args: vec!["武|家", "ぶ|け|しょ"] };
    assert_eq!(execute_command_ruby(several), Err(RubyError::NumberMismatch(2, 3)));
}

#[test]
fn filter_of_empty_text_gives_nothing() {
    let mut iter = LatexLikeFilter::new("");
    assert_eq!(iter.next(), None);
    assert_eq!(iter.next(), None);
}

#[test]
fn filter_without_escape_gives_one_plain_run() {
    let s = "ルビのない文章 {a}{b} | ruby";
    let mut iter = LatexLikeFilter::new(s);
    assert_eq!(iter.next(), Some(Ok(Filtered::Plain(s))));
    assert_eq!(iter.next(), None);
    assert_eq!(iter.next(), None);
}

#[test]
fn filter_leaves_refused_commands_as_text() {
    for s in [
        "\\rubi{漢字}{かんじ}",
        "\\ruby{漢字}",
        "\\ruby{漢字}{かんじ",
        "\\ruby{漢字}{かんじ}{extra}",
        "\\ruby{漢字}{かんじ}{",
        "\\ruby",
        "\\ruby{漢字\\}{かんじ\\}",
        "\\\\",
        "a\\",
    ] {
        let mut iter = LatexLikeFilter::new(s);
        assert_eq!(iter.next(), Some(Ok(Filtered::Plain(s))));
        assert_eq!(iter.next(), None);
    }
}

#[test]
fn filter_reports_a_command_whose_groups_do_not_match() {
    let s = "前\\ruby{大名}{だ|い|みょう}後\\ruby{a|b}{x}";
    let mut iter = LatexLikeFilter::new(s);
    assert_eq!(iter.next(), Some(Ok(Filtered::Plain("前"))));
    assert_eq!(
        iter.next(),
        Some(Err(CommandError {
            source: "\\ruby{大名}{だ|い|みょう}",
            cause: RubyError::NumberMismatch(2, 3),
        }))
    );
    assert_eq!(iter.next(), Some(Ok(Filtered::Plain("後"))));
    assert_eq!(
        iter.next(),
        Some(Err(CommandError {
            source: "\\ruby{a|b}{x}",
            cause: RubyError::NumberMismatch(2, 1),
        }))
    );
    assert_eq!(iter.next(), None);
}

#[test]
fn filter_gives_commands_that_touch_one_after_another() {
    let s = "\\ruby{a}{b}\\ruby{c}{d}";
    let mut iter = LatexLikeFilter::new(s);
    assert_eq!(iter.next(), Some(Ok(Filtered::Ruby(Ruby::from_str_vecs(vec!["a"], vec!["b"])))));
    assert_eq!(iter.next(), Some(Ok(Filtered::Ruby(Ruby::from_str_vecs(vec!["c"], vec!["d"])))));
    assert_eq!(iter.next(), None);
}

#[test]
fn filter_keeps_escapes_inside_arguments() {
    let s = "\\ruby{a\\}b}{c\\\\}";
    let mut iter = LatexLikeFilter::new(s);
    assert_eq!(
        iter.next(),
        Some(Ok(Filtered::Ruby(Ruby::from_str_vecs(vec!["a\\}b"], vec!["c\\\\"]))))
    );
    assert_eq!(iter.next(), None);
}

#[test]
fn filter_ends_an_argument_at_the_first_closing_brace() {
    let s = "\\ruby{\\ruby{a}{b}";
    let mut iter = LatexLikeFilter::new(s);
    assert_eq!(
        iter.next(),
        Some(Ok(Filtered::Ruby(Ruby::from_str_vecs(vec!["\\ruby{a"], vec!["b"]))))
    );
    assert_eq!(iter.next(), None);
}

#[test]
fn filter_finds_a_command_after_a_refused_one() {
    let s = "\\ruby{x}\\ruby{a}{b}";
    let mut iter = LatexLikeFilter::new(s);
    assert_eq!(iter.next(), Some(Ok(Filtered::Plain("\\ruby{x}"))));
    assert_eq!(iter.next(), Some(Ok(Filtered::Ruby(Ruby::from_str_vecs(vec!["a"], vec!["b"])))));
    assert_eq!(iter.next(), None);
}

#[test]
fn filter_output_gives_the_text_back() {
    for s in [
        "Hello, \\ruby{世|界}{せ|かい}!!",
        "\\ruby{武|家|諸|法度}{ぶ|け|しょ|はっと}は\\ruby{a|b}{x}\\ruby{漢}{かん}。",
        "\\ruby{x}\\ruby{a}{b}\\rubi{c}{d}",
        "ルビなし",
        "",
    ] {
        let mut rebuilt = String::new();
        let mut iter = LatexLikeFilter::new(s);
        loop {
            match iter.next() {
                None => break,
                Some(Ok(Filtered::Plain(plain))) => rebuilt.push_str(plain),
                Some(Ok(Filtered::Ruby(ruby))) => {
                    rebuilt.push_str("\\ruby{");
                    rebuilt.push_str(&ruby.base().join("|"));
                    rebuilt.push_str("}{");
                    rebuilt.push_str(&ruby.ruby().join("|"));
                    rebuilt.push_str("}");
                }
                Some(Err(error)) => rebuilt.push_str(error.source),
            }
        }
        assert_eq!(rebuilt, s);
    }
}

#[test]
fn cloned_filter_goes_on_alone() {
    let mut iter = LatexLikeFilter::new("a\\ruby{b}{c}");
    assert_eq!(iter.next(), Some(Ok(Filtered::Plain("a"))));
    let mut copy = iter.clone();
    assert_eq!(copy.next(), Some(Ok(Filtered::Ruby(Ruby::from_str_vecs(vec!["b"], vec!["c"])))));
    assert_eq!(copy.next(), None);
    assert_eq!(iter.next(), Some(Ok(Filtered::Ruby(Ruby::from_str_vecs(vec!["b"], vec!["c"])))));
}

#[test]
fn ruby_gives_its_groups() {
    let ruby = Ruby::from_str_vecs(vec!["武", "家"], vec!["ぶ", "け"]);
    assert_eq!(ruby.base().len(), 2);
    assert_eq!(ruby.base()[0], "武");
    assert_eq!(ruby.base()[1], "家");
    assert_eq!(ruby.ruby()[0], "ぶ");
    assert_eq!(ruby.ruby()[1], "け");
    assert_eq!(ruby.clone(), ruby);
}
