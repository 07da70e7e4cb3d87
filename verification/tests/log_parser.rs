use rpkg::dictionary::Dictionary;
use rpkg::parser::LogFormat::Linux;
use rpkg::parser::{
    add_neighbours, apply_domain_specific_re, can_count_line, censored_regexps, chars_of,
    collect_tokens, count_tokens, double_keys, find_prev_tokens, first_tokens, format_string,
    holds_token, last_tokens, merge_hashmaps, merge_token_list, patterns_compile,
    process_dictionary_builder_line, regex_generator, regex_generator_helper, reverse_dict,
    split_message, split_whitespace, splits, token_splitter, trim, triple_keys,
    try_find_prev_tokens, try_merge_hashmaps, try_process_dictionary_builder_line,
    try_token_splitter, LogFormat,
};
use std::collections::{BTreeSet, HashMap};

fn strings(items: &[&str]) -> Vec<String> {
    items.iter().map(|s| s.to_string()).collect()
}

fn as_map(d: &Dictionary) -> HashMap<String, i32> {
    d.entries().into_iter().collect()
}

fn dictionary(items: &[(&str, i32)]) -> Dictionary {
    let mut d = Dictionary::new();
    for (key, count) in items {
        d.add(key.to_string(), *count);
    }
    d
}

#[test]
fn test_regex_generator_helper() {
    let linux_format =
        r"<Month> <Date> <Time> <Level> <Component>(\[<PID>\])?: <Content>".to_string();
    assert_eq!(
        regex_generator_helper(linux_format),
        r"(?P<Month>.*?)\s+(?P<Date>.*?)\s+(?P<Time>.*?)\s+(?P<Level>.*?)\s+(?P<Component>.*?)(\[(?P<PID>.*?)\])?:\s+(?P<Content>.*?)"
    );

    let openstack_format =
        r"<Logrecord> <Date> <Time> <Pid> <Level> <Component> (\[<ADDR>\])? <Content>".to_string();
    assert_eq!(
        regex_generator_helper(openstack_format),
        r"(?P<Logrecord>.*?)\s+(?P<Date>.*?)\s+(?P<Time>.*?)\s+(?P<Pid>.*?)\s+(?P<Level>.*?)\s+(?P<Component>.*?)\s+(\[(?P<ADDR>.*?)\])?\s+(?P<Content>.*?)"
    );
}

#[test]
fn test_apply_domain_specific_re() {
    let line = "q2.34.4.5 Jun 14 15:16:02 combo sshd(pam_unix)[19937]: check pass; Fri Jun 17 20:55:07 2005 user unknown".to_string();
    let censored_line = apply_domain_specific_re(line, &censored_regexps(&Linux));
    assert_eq!(
        censored_line,
        " q<*> Jun 14 <*> combo sshd(pam_unix)[19937]: check pass; <*> user unknown"
    );
}

#[test]
fn test_token_splitter() {
    let line = "Jun 14 15:16:02 combo sshd(pam_unix)[19937]: check pass; user unknown".to_string();
    let re = regex_generator(format_string(&Linux));
    let split_line = token_splitter(line, &re, &censored_regexps(&Linux));
    assert_eq!(split_line, vec!["check", "pass;", "user", "unknown"]);
}

#[test]
fn test_dictionary_builder_process_line_lookahead_is_none() {
    let line = "Jun 14 15:16:02 combo sshd(pam_unix)[19937]: check pass; user unknown".to_string();
    let re = regex_generator(format_string(&Linux));
    let mut dbl = Dictionary::new();
    let mut trpl = Dictionary::new();
    let mut all_token_list = vec![];
    let (last1, last2) = process_dictionary_builder_line(
        line,
        None,
        &re,
        &censored_regexps(&Linux),
        &mut dbl,
        &mut trpl,
        &mut all_token_list,
        None,
        None,
    );
    assert_eq!(
        (last1, last2),
        (Some("unknown".to_string()), Some("user".to_string()))
    );

    let mut dbl_oracle = HashMap::new();
    dbl_oracle.insert("user^unknown".to_string(), 1);
    dbl_oracle.insert("pass;^user".to_string(), 1);
    dbl_oracle.insert("check^pass;".to_string(), 1);
    assert_eq!(as_map(&dbl), dbl_oracle);

    let mut trpl_oracle = HashMap::new();
    trpl_oracle.insert("pass;^user^unknown".to_string(), 1);
    trpl_oracle.insert("check^pass;^user".to_string(), 1);
    assert_eq!(as_map(&trpl), trpl_oracle);
}

#[test]
fn test_dictionary_builder_process_line_lookahead_is_some() {
    let line = "Jun 14 15:16:02 combo sshd(pam_unix)[19937]: check pass; user unknown".to_string();
    let next_line = "Jun 14 15:16:02 combo sshd(pam_unix)[19937]: baz bad".to_string();
    let re = regex_generator(format_string(&Linux));
    let mut dbl = Dictionary::new();
    let mut trpl = Dictionary::new();
    let mut all_token_list = vec![];
    let (last1, last2) = process_dictionary_builder_line(
        line,
        Some(next_line),
        &re,
        &censored_regexps(&Linux),
        &mut dbl,
        &mut trpl,
        &mut all_token_list,
        Some("foo".to_string()),
        Some("bar".to_string()),
    );
    assert_eq!(
        (last1, last2),
        (Some("unknown".to_string()), Some("user".to_string()))
    );

    let mut dbl_oracle = HashMap::new();
    dbl_oracle.insert("unknown^baz".to_string(), 1);
    dbl_oracle.insert("foo^check".to_string(), 1);
    dbl_oracle.insert("user^unknown".to_string(), 1);
    dbl_oracle.insert("pass;^user".to_string(), 1);
    dbl_oracle.insert("check^pass;".to_string(), 1);
    assert_eq!(as_map(&dbl), dbl_oracle);

    let mut trpl_oracle = HashMap::new();
    trpl_oracle.insert("pass;^user^unknown".to_string(), 1);
    trpl_oracle.insert("check^pass;^user".to_string(), 1);
    trpl_oracle.insert("unknown^baz^bad".to_string(), 1);
    trpl_oracle.insert("foo^check^pass;".to_string(), 1);
    trpl_oracle.insert("bar^foo^check".to_string(), 1);
    trpl_oracle.insert("user^unknown^baz".to_string(), 1);
    assert_eq!(as_map(&trpl), trpl_oracle);
    assert_eq!(all_token_list, strings(&["check", "pass;", "user", "unknown"]));
}

#[test]
fn each_kind_of_log_has_its_layout() {
    assert_eq!(
        format_string(&LogFormat::Linux),
        "<Month> <Date> <Time> <Level> <Component>(\\\\[<PID>\\\\])?: <Content>"
    );
    assert_eq!(
        format_string(&LogFormat::OpenStack),
        "'<Logrecord> <Date> <Time> <Pid> <Level> <Component> \\[<ADDR>\\] <Content>'"
    );
    assert_eq!(format_string(&LogFormat::Spark), "<Date> <Time> <Level> <Component>: <Content>");
    assert_eq!(
        format_string(&LogFormat::HDFS),
        "<Date> <Time> <Pid> <Level> <Component>: <Content>"
    );
    assert_eq!(
        format_string(&LogFormat::HPC),
        "<LogId> <Node> <Component> <State> <Time> <Flag> <Content>"
    );
    assert_eq!(format_string(&LogFormat::Proxifier), "[<Time>] <Program> - <Content>");
    assert_eq!(
        format_string(&LogFormat::Android),
        "<Date> <Time>  <Pid>  <Tid> <Level> <Component>: <Content>"
    );
    assert_eq!(format_string(&LogFormat::HealthApp), "<Time>\\|<Component>\\|<Pid>\\|<Content>");
}

#[test]
fn each_kind_of_log_has_patterns_that_compile() {
    let kinds = [
        (LogFormat::Linux, 3),
        (LogFormat::OpenStack, 2),
        (LogFormat::Spark, 3),
        (LogFormat::HDFS, 2),
        (LogFormat::HPC, 1),
        (LogFormat::Proxifier, 4),
        (LogFormat::Android, 3),
        (LogFormat::HealthApp, 0),
    ];
    for (kind, count) in kinds {
        let patterns = censored_regexps(&kind);
        assert_eq!(patterns.len(), count);
        assert!(patterns_compile(&patterns));
        assert!(patterns_compile(&vec![regex_generator(format_string(&kind))]));
    }
    assert_eq!(censored_regexps(&LogFormat::HPC), strings(&[r"=\d+"]));
    assert_eq!(censored_regexps(&LogFormat::HDFS)[0], r"blk_(|-)[0-9]+");
}

#[test]
fn a_layout_gives_its_pattern() {
    assert_eq!(regex_generator_helper("".to_string()), "");
    assert_eq!(regex_generator_helper("no fields".to_string()), "");
    assert_eq!(regex_generator_helper("<A>".to_string()), "(?P<A>.*?)");
    assert_eq!(regex_generator_helper("x<A>y".to_string()), "(?P<A>.*?)");
    assert_eq!(regex_generator_helper("<A><B>".to_string()), "(?P<A>.*?)(?P<B>.*?)");
    assert_eq!(regex_generator_helper("<A>  -  <B>".to_string()), r"(?P<A>.*?)\s+-  (?P<B>.*?)");
    assert_eq!(regex_generator_helper("<A>:<B>".to_string()), "(?P<A>.*?):(?P<B>.*?)");
    assert_eq!(regex_generator_helper("<><A>".to_string()), "(?P<A>.*?)");
    assert_eq!(regex_generator_helper("<<A>>".to_string()), "(?P<A>.*?)");
    assert_eq!(regex_generator_helper("<A> <B".to_string()), "(?P<A>.*?)");
    assert_eq!(regex_generator_helper("<A b> <\u{e9}>".to_string()), "(?P<A b>.*?)\\s+(?P<\u{e9}>.*?)");
    assert_eq!(regex_generator("<A> <B>".to_string()), r"^(?P<A>.*?)\s+(?P<B>.*?)$");
}

#[test]
fn white_space_is_trimmed_and_split_as_std_does() {
    let samples = [
        "",
        " ",
        "a",
        "  a b  ",
        "\t a\u{a0}b \n",
        "one  two\tthree\r\nfour",
        "\u{3000}x\u{2003}y\u{3000}",
        "caf\u{e9} au lait ",
    ];
    for text in samples {
        assert_eq!(trim(text), text.trim());
        let expected: Vec<String> = text.split_whitespace().map(|s| s.to_string()).collect();
        assert_eq!(split_whitespace(text), expected);
        assert_eq!(chars_of(text), text.chars().collect::<Vec<char>>());
    }
}

#[test]
fn a_message_is_blotted_and_split() {
    let patterns = strings(&[r"\d+", "b+"]);
    assert_eq!(apply_domain_specific_re("a1 bb 22".to_string(), &patterns), " a<*> <*> <*>");
    assert_eq!(split_message("a1 bb 22".to_string(), &patterns), strings(&["a<*>", "<*>", "<*>"]));
    assert_eq!(apply_domain_specific_re("x".to_string(), &vec![]), " x");
    assert_eq!(split_message("  ".to_string(), &vec![]), Vec::<String>::new());
}

#[test]
fn a_line_that_does_not_match_has_no_tokens() {
    let re = regex_generator(format_string(&Linux));
    let patterns = censored_regexps(&Linux);
    assert!(splits("no such line", &re, &patterns));
    assert_eq!(token_splitter("no such line".to_string(), &re, &patterns), Vec::<String>::new());
    assert_eq!(
        try_token_splitter("no such line".to_string(), &re, &patterns),
        Some(Vec::<String>::new())
    );
    assert_eq!(
        find_prev_tokens("no such line".to_string(), &re, &patterns),
        (None, None)
    );
}

#[test]
fn a_line_that_cannot_be_split_is_told() {
    let good = regex_generator(format_string(&Linux));
    let patterns = censored_regexps(&Linux);
    let broken = "(".to_string();
    let line = "Jun 14 15:16:02 combo sshd(pam_unix)[19937]: check pass; user unknown";
    assert!(splits(line, &good, &patterns));
    assert!(!splits(line, &broken, &patterns));
    assert!(!splits(line, &good, &strings(&["["])));
    assert!(!patterns_compile(&strings(&["a", "[", "b"])));
    let without_content = "^(?P<Other>.*)$".to_string();
    assert!(!splits(line, &without_content, &patterns));
    assert_eq!(try_token_splitter(line.to_string(), &broken, &patterns), None);
    assert_eq!(try_token_splitter(line.to_string(), &without_content, &patterns), None);
    assert_eq!(try_find_prev_tokens(line.to_string(), &broken, &patterns), None);
    assert_eq!(
        try_find_prev_tokens(line.to_string(), &good, &patterns),
        Some((Some("unknown".to_string()), Some("user".to_string())))
    );
    assert_eq!(
        try_token_splitter(format!("  {}  ", line), &good, &patterns),
        Some(strings(&["check", "pass;", "user", "unknown"]))
    );
    let mut dbl = Dictionary::new();
    let mut trpl = Dictionary::new();
    let mut all = vec![];
    assert_eq!(
        try_process_dictionary_builder_line(
            line.to_string(),
            Some("x".to_string()),
            &broken,
            &patterns,
            &mut dbl,
            &mut trpl,
            &mut all,
            None,
            None
        ),
        None
    );
    assert_eq!(dbl.len(), 0);
    assert_eq!(
        try_process_dictionary_builder_line(
            line.to_string(),
            None,
            &good,
            &patterns,
            &mut dbl,
            &mut trpl,
            &mut all,
            None,
            None
        ),
        Some((Some("unknown".to_string()), Some("user".to_string())))
    );
    assert_eq!(dbl.len(), 3);
    assert_eq!(trpl.len(), 2);
    assert_eq!(all.len(), 4);
}

#[test]
fn the_ends_of_a_token_list_are_found() {
    assert_eq!(last_tokens(&vec![]), (None, None));
    assert_eq!(last_tokens(&strings(&["a"])), (Some("a".to_string()), None));
    assert_eq!(
        last_tokens(&strings(&["a", "b", "c"])),
        (Some("c".to_string()), Some("b".to_string()))
    );
    assert_eq!(first_tokens(&vec![]), (None, None));
    assert_eq!(first_tokens(&strings(&["a"])), (Some("a".to_string()), None));
    assert_eq!(
        first_tokens(&strings(&["a", "b", "c"])),
        (Some("a".to_string()), Some("b".to_string()))
    );
}

#[test]
fn neighbours_give_pairs_and_triples() {
    assert_eq!(double_keys(&vec![]), Vec::<String>::new());
    assert_eq!(double_keys(&strings(&["a"])), Vec::<String>::new());
    assert_eq!(double_keys(&strings(&["a", "b", "c"])), strings(&["a^b", "b^c"]));
    assert_eq!(triple_keys(&strings(&["a", "b"])), Vec::<String>::new());
    assert_eq!(triple_keys(&strings(&["a", "b", "c", "d"])), strings(&["a^b^c", "b^c^d"]));
    assert_eq!(
        add_neighbours(Some("p".to_string()), strings(&["a", "b"]), Some("n".to_string())),
        strings(&["p", "a", "b", "n"])
    );
    assert_eq!(add_neighbours(None, strings(&["a"]), None), strings(&["a"]));
    assert_eq!(add_neighbours(None, vec![], Some("n".to_string())), strings(&["n"]));
}

#[test]
fn tokens_are_collected_once() {
    let mut all = strings(&["b"]);
    collect_tokens(&mut all, &strings(&["a", "b", "a", "c"]));
    assert_eq!(all, strings(&["b", "a", "c"]));
    assert!(holds_token(&all, &"c".to_string()));
    assert!(!holds_token(&all, &"d".to_string()));
    assert_eq!(
        merge_token_list(vec![strings(&["x", "y"]), vec![], strings(&["y", "z", "x", "z"])]),
        strings(&["x", "y", "z"])
    );
    assert_eq!(merge_token_list(vec![]), Vec::<String>::new());
}

#[test]
fn repeated_tokens_are_counted_each_time() {
    let mut dbl = Dictionary::new();
    let mut trpl = Dictionary::new();
    let mut all = vec![];
    let last = count_tokens(
        strings(&["a", "a", "a", "b"]),
        None,
        None,
        &mut dbl,
        &mut trpl,
        &mut all,
        Some("a".to_string()),
        None,
    );
    assert_eq!(last, (Some("b".to_string()), Some("a".to_string())));
    assert_eq!(dbl.entries(), vec![("a^a".to_string(), 3), ("a^b".to_string(), 1)]);
    assert_eq!(trpl.entries(), vec![("a^a^a".to_string(), 2), ("a^a^b".to_string(), 1)]);
    assert_eq!(all, strings(&["a", "b"]));
    let last = count_tokens(vec![], Some("n".to_string()), None, &mut dbl, &mut trpl, &mut all, None, None);
    assert_eq!(last, (None, None));
    assert_eq!(dbl.len(), 2);
    let last = count_tokens(strings(&["z"]), None, None, &mut dbl, &mut trpl, &mut all, None, None);
    assert_eq!(last, (Some("z".to_string()), None));
    assert_eq!(dbl.len(), 2);
    assert_eq!(trpl.len(), 2);
    assert_eq!(all, strings(&["a", "b", "z"]));
}

#[test]
fn a_full_count_leaves_no_room() {
    let full = dictionary(&[("a^b", i32::MAX)]);
    let empty = Dictionary::new();
    let tokens = strings(&["a", "b"]);
    assert!(!can_count_line(&tokens, &None, &None, &full, &empty, &None, &None));
    assert!(can_count_line(&tokens, &None, &None, &empty, &empty, &None, &None));
    assert!(can_count_line(&vec![], &None, &None, &full, &empty, &None, &None));
    let full3 = dictionary(&[("a^b^c", i32::MAX)]);
    assert!(!can_count_line(&tokens, &Some("c".to_string()), &None, &empty, &full3, &None, &None));
    assert!(!can_count_line(&tokens, &None, &Some("c".to_string()), &empty, &full3, &None, &None));
    assert!(can_count_line(&tokens, &None, &Some("d".to_string()), &empty, &full3, &None, &None));
    assert!(full.has_room_for(&strings(&["x", "y"])));
    assert!(!full.has_room_for(&strings(&["x", "a^b"])));
    let almost = dictionary(&[("k", i32::MAX - 1)]);
    assert!(almost.has_room_for(&strings(&["k"])));
    assert!(!almost.has_room_for(&strings(&["k", "k"])));
}

#[test]
fn a_dictionary_counts_keys_in_their_order() {
    let mut d = Dictionary::new();
    assert_eq!(d.get("a"), 0);
    assert_eq!(d.find("a"), None);
    d.add("a".to_string(), 2);
    d.add("b".to_string(), 1);
    d.add("a".to_string(), 3);
    d.add("c".to_string(), -4);
    assert_eq!(d.len(), 3);
    assert_eq!(d.get("a"), 5);
    assert_eq!(d.get("c"), -4);
    assert_eq!(d.find("b"), Some(1));
    assert_eq!(d.key_at(2), "c");
    assert_eq!(d.count_at(0), 5);
    assert_eq!(
        d.entries(),
        vec![("a".to_string(), 5), ("b".to_string(), 1), ("c".to_string(), -4)]
    );
    d.count_all(&strings(&["b", "d", "b"]));
    assert_eq!(d.get("b"), 3);
    assert_eq!(d.get("d"), 1);
    assert_eq!(d.clone().entries(), d.entries());
}

#[test]
fn dictionaries_are_merged_by_adding_counts() {
    let a = dictionary(&[("x", 1), ("y", 2)]);
    let b = dictionary(&[("y", 3), ("z", 4)]);
    let c = dictionary(&[("x", 5)]);
    let merged = merge_hashmaps(vec![a.clone(), b.clone(), c.clone()]);
    assert_eq!(
        merged.entries(),
        vec![("x".to_string(), 6), ("y".to_string(), 5), ("z".to_string(), 4)]
    );
    assert_eq!(merge_hashmaps(vec![]).len(), 0);
    let full = dictionary(&[("y", i32::MAX - 2)]);
    assert!(full.has_room_for_all(&a));
    assert!(!full.has_room_for_all(&b));
    assert!(try_merge_hashmaps(&vec![a.clone(), full.clone()]).is_some());
    assert!(try_merge_hashmaps(&vec![a, b, full]).is_none());
    let low = dictionary(&[("n", i32::MIN + 1)]);
    assert!(low.has_room_for_all(&dictionary(&[("n", -1)])));
    assert!(!low.has_room_for_all(&dictionary(&[("n", -2)])));
    let mut sum = dictionary(&[("n", 1)]);
    sum.merge(&dictionary(&[("m", 1), ("n", 1)]));
    assert_eq!(sum.entries(), vec![("n".to_string(), 2), ("m".to_string(), 1)]);
}

#[test]
fn a_dictionary_is_turned_round() {
    let d = dictionary(&[("k1", 7), ("k2", 3), ("k3", 7)]);
    let (values, keys) = reverse_dict(&d);
    assert_eq!(values, BTreeSet::from([3, 7]));
    assert_eq!(values.iter().copied().collect::<Vec<i32>>(), vec![3, 7]);
    let mut expected = HashMap::new();
    expected.insert(7, strings(&["k1", "k3"]));
    expected.insert(3, strings(&["k2"]));
    assert_eq!(keys, expected);
    let (values, keys) = reverse_dict(&Dictionary::new());
    assert!(values.is_empty());
    assert!(keys.is_empty());
}
