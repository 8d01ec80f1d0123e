use wubi::dict::{LineOutcome, WordTable};
use wubi::history::Wubihist;
use wubi::reply::{compare_next, lookup_reply, query_word};
use wubi::text::push_decimal;
use wubi::wubima::Wubima;

fn codes(list: &[&str]) -> Wubima {
    let mut w = Wubima::new();
    for c in list {
        assert!(w.update_bm(c));
    }
    w
}

/// A code table built from dictionary lines.
fn table_of(lines: &[&str]) -> &'static phf::Map<&'static str, Wubima> {
    let mut words = WordTable::new();
    for line in lines {
        assert_eq!(words.process_line(line), LineOutcome::Added);
    }
    Box::leak(Box::new(words.code_table()))
}

fn sample_table() -> &'static phf::Map<&'static str, Wubima> {
    table_of(&["k 中", "kh 中", "khk 中", "khlg 中国", "trwu 我们", "a 工", "aaaa 工"])
}

fn decimal(n: usize) -> String {
    let mut s = String::new();
    push_decimal(&mut s, n);
    s
}

#[test]
fn decimal_values() {
    assert_eq!(decimal(0), "0");
    assert_eq!(decimal(7), "7");
    assert_eq!(decimal(10), "10");
    assert_eq!(decimal(1234567890), "1234567890");
    assert_eq!(decimal(usize::MAX), usize::MAX.to_string());
    let mut s = String::from("共");
    push_decimal(&mut s, 42);
    assert_eq!(s, "共42");
}

#[test]
fn validate_codes() {
    assert!(Wubima::validate_bm("a"));
    assert!(Wubima::validate_bm("kh"));
    assert!(Wubima::validate_bm("khk"));
    assert!(Wubima::validate_bm("khlg"));
    assert!(Wubima::validate_bm("zzzz"));
    assert!(!Wubima::validate_bm(""));
    assert!(!Wubima::validate_bm("abcde"));
    assert!(!Wubima::validate_bm("aB"));
    assert!(!Wubima::validate_bm("a1"));
    assert!(!Wubima::validate_bm("`"));
    assert!(!Wubima::validate_bm("{"));
    assert!(!Wubima::validate_bm("中"));
}

#[test]
fn dump_without_codes_is_the_header() {
    let w = Wubima::new();
    assert_eq!(w.dump("中"), "结果：  中 =>\n");
}

#[test]
fn dump_lists_codes_shortest_first() {
    let w = codes(&["khlg", "k", "khk"]);
    assert_eq!(w.dump("中"), "结果：  中 =>\n\tk\n\tkhk\n\tkhlg\n");
    let w = codes(&["a", "aa", "aaa", "aaaa"]);
    assert_eq!(w.dump("工"), "结果：  工 =>\n\ta\n\taa\n\taaa\n\taaaa\n");
}

#[test]
fn update_replaces_a_code_of_the_same_length() {
    let mut w = codes(&["ab"]);
    assert!(w.update_bm("cd"));
    assert_eq!(w.dump("x"), "结果：  x =>\n\tcd\n");
}

#[test]
fn update_refuses_other_lengths() {
    let mut w = codes(&["k"]);
    assert!(!w.update_bm(""));
    assert!(!w.update_bm("abcde"));
    assert_eq!(w.dump("x"), "结果：  x =>\n\tk\n");
}

#[test]
fn update_stores_any_string_of_the_length() {
    // A two-byte character fills the slot of length two.
    let mut w = Wubima::new();
    assert!(w.update_bm("é"));
    assert_eq!(w.dump("x"), "结果：  x =>\n\té\n");
    // A string that starts with a zero byte leaves the slot reading as empty.
    let mut w = Wubima::new();
    assert!(w.update_bm("\0a"));
    assert_eq!(w.dump("x"), "结果：  x =>\n");
}

#[test]
fn new_history_is_empty() {
    let h = Wubihist::new();
    let mut s = String::from("pre");
    assert_eq!(h.current(&mut s), None);
    assert_eq!(s, "pre");
    assert!(h.word_list().is_empty());
}

#[test]
fn next_on_empty_history() {
    let mut h = Wubihist::new();
    let mut s = String::new();
    assert_eq!(h.next(&mut s), None);
    assert_eq!(s, "");
}

#[test]
fn add_word_puts_cursor_on_new_word() {
    let mut h = Wubihist::new();
    assert!(h.add_word("中"));
    assert!(h.add_word("国"));
    let mut s = String::new();
    assert_eq!(h.current(&mut s), Some(1));
    assert_eq!(s, "国");
    assert_eq!(h.word_list(), &vec!["中".to_string(), "国".to_string()]);
}

#[test]
fn add_word_twice_changes_nothing() {
    let mut h = Wubihist::new();
    assert!(h.add_word("中"));
    assert!(h.add_word("国"));
    assert!(!h.add_word("中"));
    let mut s = String::new();
    assert_eq!(h.current(&mut s), Some(1));
    assert_eq!(s, "国");
    assert_eq!(h.word_list().len(), 2);
}

#[test]
fn next_goes_round_the_history() {
    let mut h = Wubihist::new();
    for w in ["一", "二", "三"] {
        assert!(h.add_word(w));
    }
    // The cursor is on the last word added; three moves bring it back.
    let mut seen = Vec::new();
    for _ in 0..3 {
        let mut s = String::new();
        let i = h.next(&mut s).unwrap();
        seen.push((i, s));
    }
    assert_eq!(
        seen,
        vec![(0, "一".to_string()), (1, "二".to_string()), (2, "三".to_string())]
    );
    let mut s = String::new();
    assert_eq!(h.current(&mut s), Some(2));
    assert_eq!(s, "三");
}

#[test]
fn next_appends_to_the_string() {
    let mut h = Wubihist::new();
    assert!(h.add_word("一"));
    let mut s = String::from(">");
    assert_eq!(h.next(&mut s), Some(0));
    assert_eq!(s, ">一");
}

#[test]
fn load_keeps_table_words_once() {
    let table = sample_table();
    let mut h = Wubihist::new();
    assert!(h.add_word("old"));
    let lines: Vec<String> = vec!["  中国 \n", "外", "我们", "中国", "\t中\r\n", ""]
        .into_iter()
        .map(String::from)
        .collect();
    let msg = h.load_lines(table, &lines);
    assert_eq!(msg, "历史文件加载成功，共3个词组。\n第零个词组：\n\t中国");
    assert_eq!(
        h.word_list(),
        &vec!["中国".to_string(), "我们".to_string(), "中".to_string()]
    );
    let mut s = String::new();
    assert_eq!(h.current(&mut s), Some(0));
    assert_eq!(s, "中国");
}

#[test]
fn load_with_no_table_words() {
    let table = sample_table();
    let mut h = Wubihist::new();
    assert!(h.add_word("中"));
    let lines: Vec<String> = vec!["外".to_string(), "x".to_string()];
    let msg = h.load_lines(table, &lines);
    assert_eq!(msg, "历史文件加载成功，共0个词组。\n第零个词组：\n\t<無>");
    assert!(h.word_list().is_empty());
}

#[test]
fn store_summary_names_the_due_word() {
    let mut h = Wubihist::new();
    assert_eq!(h.store_summary(), "历史文件写入成功，共 0 个词组。");
    assert!(h.add_word("中"));
    assert!(h.add_word("国"));
    assert_eq!(
        h.store_summary(),
        "历史文件写入成功，共 2 个词组。\n当前词组：\n\t国"
    );
}

#[test]
fn query_found_records_the_word() {
    let table = sample_table();
    let mut h = Wubihist::new();
    let (ret, msg) = query_word(table, &mut h, "中");
    assert_eq!(ret, 0);
    assert_eq!(msg, "结果：  中 =>\n\tk\n\tkh\n\tkhk\n");
    assert_eq!(h.word_list(), &vec!["中".to_string()]);
    let (ret, msg) = query_word(table, &mut h, "中国");
    assert_eq!(ret, 0);
    assert_eq!(msg, "结果：  中国 =>\n\tkhlg\n");
    // Looking a recorded word up again leaves the history as it was.
    let (ret, _) = query_word(table, &mut h, "中");
    assert_eq!(ret, 0);
    let mut s = String::new();
    assert_eq!(h.current(&mut s), Some(1));
    assert_eq!(s, "中国");
}

#[test]
fn query_not_found() {
    let table = sample_table();
    let mut h = Wubihist::new();
    let (ret, msg) = query_word(table, &mut h, "外国");
    assert_eq!(ret, -1);
    assert_eq!(msg, "抱歉！五笔编码未找到：\n\t外国\n");
    assert!(h.word_list().is_empty());
}

#[test]
fn lookup_reply_does_not_record() {
    let table = sample_table();
    assert_eq!(lookup_reply(table, "工"), (0, "结果：  工 =>\n\ta\n\taaaa\n".to_string()));
    assert_eq!(lookup_reply(table, "无"), (-1, "抱歉！五笔编码未找到：\n\t无\n".to_string()));
}

#[test]
fn lookup_in_an_empty_table() {
    let table: &phf::Map<&'static str, Wubima> = Box::leak(Box::new(WordTable::new().code_table()));
    assert_eq!(lookup_reply(table, "中"), (-1, "抱歉！五笔编码未找到：\n\t中\n".to_string()));
}

#[test]
fn compare_on_empty_history() {
    let mut h = Wubihist::new();
    assert_eq!(compare_next(&mut h, "中"), "错误！当前历史记录为空！");
}

#[test]
fn compare_match_moves_on() {
    let mut h = Wubihist::new();
    assert!(h.add_word("一"));
    assert!(h.add_word("二"));
    assert_eq!(compare_next(&mut h, "二"), "对比成功！下一个词组，序号 0：\n\t一\n");
    assert_eq!(compare_next(&mut h, "一"), "对比成功！下一个词组，序号 1：\n\t二\n");
}

#[test]
fn compare_mismatch_stays() {
    let mut h = Wubihist::new();
    assert!(h.add_word("一"));
    assert!(h.add_word("二"));
    assert_eq!(compare_next(&mut h, "一"), "对比不一致！请重新输入，序号 1：\n\t二\n");
    let mut s = String::new();
    assert_eq!(h.current(&mut s), Some(1));
}

#[test]
fn compare_single_word_stays_on_it() {
    let mut h = Wubihist::new();
    assert!(h.add_word("一"));
    assert_eq!(compare_next(&mut h, "一"), "对比成功！下一个词组，序号 0：\n\t一\n");
}

#[test]
fn dictionary_lines() {
    let mut t = WordTable::new();
    assert_eq!(t.process_line("khk 中 中国\n"), LineOutcome::Added);
    assert_eq!(t.process_line("k\t中"), LineOutcome::Added);
    assert_eq!(t.process_line("  khlg   中国  "), LineOutcome::Added);
    assert_eq!(t.process_line("kh"), LineOutcome::TooFewFields);
    assert_eq!(t.process_line("   "), LineOutcome::TooFewFields);
    assert_eq!(t.process_line("KH 口"), LineOutcome::BadCode);
    assert_eq!(t.process_line("abcde 口"), LineOutcome::BadCode);
    assert_eq!(t.len(), 2);
    let (w0, c0) = t.entry(0);
    assert_eq!(w0, "中");
    assert_eq!(c0.dump(w0), "结果：  中 =>\n\tk\n\tkhk\n");
    let (w1, c1) = t.entry(1);
    assert_eq!(w1, "中国");
    assert_eq!(c1.dump(w1), "结果：  中国 =>\n\tkhk\n\tkhlg\n");
}

#[test]
fn new_bm_gives_code_to_each_word() {
    let mut t = WordTable::new();
    t.new_bm("aa", &["工", "式", "工"]);
    t.new_bm("a", &["工"]);
    assert_eq!(t.len(), 2);
    assert_eq!(t.entry(0).0, "工");
    assert_eq!(t.entry(0).1.dump("工"), "结果：  工 =>\n\ta\n\taa\n");
    assert_eq!(t.entry(1).0, "式");
    assert_eq!(t.entry(1).1.dump("式"), "结果：  式 =>\n\taa\n");
}

#[test]
fn dictionary_to_table_to_lookup() {
    let mut t = WordTable::new();
    assert_eq!(t.process_line("trwu 我们"), LineOutcome::Added);
    assert_eq!(t.process_line("q 我"), LineOutcome::Added);
    assert_eq!(t.process_line("tr 我们"), LineOutcome::Added);
    let table = t.code_table();
    assert_eq!(table.len(), 2);
    assert_eq!(lookup_reply(&table, "我"), (0, "结果：  我 =>\n\tq\n".to_string()));
    assert_eq!(lookup_reply(&table, "我们"), (0, "结果：  我们 =>\n\ttr\n\ttrwu\n".to_string()));
    assert_eq!(lookup_reply(&table, "我们的").0, -1);
}

#[test]
fn code_table_of_many_words() {
    let mut t = WordTable::new();
    let words: Vec<String> = (0..200).map(|i| format!("词{}", i)).collect();
    let refs: Vec<&str> = words.iter().map(|w| w.as_str()).collect();
    t.new_bm("abcd", &refs);
    let table = t.code_table();
    for w in &words {
        assert_eq!(lookup_reply(&table, w), (0, format!("结果：  {} =>\n\tabcd\n", w)));
    }
    assert_eq!(lookup_reply(&table, "词200").0, -1);
}

#[test]
fn store_then_load_gives_the_history_back() {
    let table = sample_table();
    let mut h = Wubihist::new();
    for w in ["我们", "中", "工"] {
        let (ret, _) = query_word(table, &mut h, w);
        assert_eq!(ret, 0);
    }
    let lines: Vec<String> = h.word_list().iter().map(|w| format!("{}\n", w)).collect();
    let mut again = Wubihist::new();
    let _ = again.load_lines(table, &lines);
    assert_eq!(again.word_list(), h.word_list());
}

#[test]
fn next_cursor_returns_after_a_full_round() {
    let mut h = Wubihist::new();
    for w in ["一", "二", "三", "四"] {
        assert!(h.add_word(w));
    }
    let mut s = String::new();
    let start = h.current(&mut s).unwrap();
    let mut visited = Vec::new();
    for _ in 0..4 {
        let mut t = String::new();
        visited.push(h.next(&mut t).unwrap());
    }
    assert_eq!(*visited.last().unwrap(), start);
    visited.sort();
    assert_eq!(visited, vec![0, 1, 2, 3]);
    let mut t = String::new();
    assert_eq!(h.current(&mut t), Some(start));
    assert_eq!(t, s);
}
