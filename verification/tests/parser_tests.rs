use drillbook::parser::{parse_questions, slug_from_classes, slugify, split_blocks};

#[test]
fn parse_single_question() {
    let text = r#"
Q: 損益分岐点売上高を求める式として正しいものはどれか。
1. 固定費 ÷ 限界利益率
2. 変動費 ÷ 限界利益率
3. 固定費 ÷ 変動費率
4. 売上高 ÷ 固定費率
A: 1
E: 損益分岐点売上高は固定費を限界利益率で割って求める。
"#;

    let parsed = parse_questions(text, 2025, "財務・会計").expect("should parse");
    assert_eq!(parsed.len(), 1);
    assert_eq!(parsed[0].answer_index, 0);
    assert_eq!(parsed[0].choices.len(), 4);
}

#[test]
fn fails_when_answer_out_of_range() {
    let text = r#"
Q: 問題
1. A
2. B
A: 3
E: 解説
"#;

    let result = parse_questions(text, 2025, "財務・会計");
    assert!(result.is_err());
}

#[test]
fn parsed_question_fields_and_ids() {
    let text = "Q: First?\n1. Yes\n2. No\nA: 2\nE: Because.\n\nQ: Second?\n1. a\n2. b\n3. c\nA: 3\n";
    let parsed = parse_questions(text, 2024, "  Corporate Finance & Accounting ").expect("should parse");
    assert_eq!(parsed.len(), 2);
    assert_eq!(parsed[0].id, "2024_corporate_finance_accounting_01");
    assert_eq!(parsed[1].id, "2024_corporate_finance_accounting_02");
    assert_eq!(parsed[0].question_text, "First?");
    assert_eq!(parsed[0].choices, vec!["Yes".to_string(), "No".to_string()]);
    assert_eq!(parsed[0].answer_index, 1);
    assert_eq!(parsed[0].explanation, "Because.");
    assert_eq!(parsed[0].year, 2024);
    assert_eq!(parsed[0].subject, "  Corporate Finance & Accounting ");
    assert_eq!(parsed[1].choices.len(), 3);
    assert_eq!(parsed[1].answer_index, 2);
    assert_eq!(parsed[1].explanation, "（解説なし）");
}

#[test]
fn ids_have_two_or_more_digits() {
    let mut text = String::new();
    for _ in 0..10 {
        text.push_str("問題: x\n1. a\n2. b\n答え: 1\n");
    }
    let parsed = parse_questions(&text, 2023, "abc").expect("should parse");
    assert_eq!(parsed.len(), 10);
    assert_eq!(parsed[0].id, "2023_abc_01");
    assert_eq!(parsed[8].id, "2023_abc_09");
    assert_eq!(parsed[9].id, "2023_abc_10");
}

#[test]
fn error_when_no_blocks() {
    let err = parse_questions("  \n\n \t\n", 2025, "x").err().expect("should fail");
    assert_eq!(err.message, "設問ブロックが見つかりませんでした。");
    assert_eq!(err.to_string(), "設問ブロックが見つかりませんでした。");
}

#[test]
fn error_messages_of_blocks() {
    let cases = [
        ("Q: q\n1. a\n2. b\nA: x\n", "正答番号の解析に失敗しました: x"),
        ("Q: q\n1. a\n2. b\nA: 0\n", "正答番号は1以上で指定してください。"),
        ("1. a\n2. b\nA: 1\n", "問題文が見つかりませんでした。"),
        ("Q: q\n1. a\nA: 1\n", "選択肢が2件未満です。"),
        ("Q: q\n1. a\n2. b\n", "正答が見つかりませんでした。"),
        ("Q: q\n1. a\n2. b\nA: 3\n", "正答番号が選択肢範囲外です。"),
    ];
    for (text, message) in cases {
        let err = parse_questions(text, 2025, "s").err().expect("should fail");
        assert_eq!(err.message, message);
    }
}

#[test]
fn answer_line_error_ends_the_block() {
    // The answer error comes first, although the block has no question.
    let err = parse_questions("A: -1\n1. a\n2. b\n", 2025, "s").err().expect("should fail");
    assert_eq!(err.message, "正答番号の解析に失敗しました: -1");
}

#[test]
fn choice_markers_and_full_width_numbers() {
    let text = "Q: q\n１. 甲\n２. 乙\n(3) not a choice\n+4. plus sign\nA: +2\n解説: e\n";
    let parsed = parse_questions(text, 2025, "s").expect("should parse");
    assert_eq!(parsed[0].choices, vec!["甲".to_string(), "乙".to_string(), "plus sign".to_string()]);
    assert_eq!(parsed[0].answer_index, 1);
    assert_eq!(parsed[0].explanation, "e");
}

#[test]
fn missing_first_marker_ends_the_choice_search() {
    // Without ". " in the line, the markers after it are not tried.
    let text = "Q: q\n1. a\n2) b\n3) c. d\n４．e\nA: 1\n";
    let parsed = parse_questions(text, 2025, "s").expect("should parse");
    assert_eq!(parsed[0].choices, vec!["a".to_string(), "c. d".to_string()]);
}

#[test]
fn split_blocks_groups_lines() {
    let blocks = split_blocks("intro\r\n  Q: one \n1. a\n\nQ: two\n2. b\n問題: three");
    assert_eq!(
        blocks,
        vec![
            vec!["intro".to_string()],
            vec!["Q: one".to_string(), "1. a".to_string()],
            vec!["Q: two".to_string(), "2. b".to_string()],
            vec!["問題: three".to_string()],
        ]
    );
    assert!(split_blocks("").is_empty());
}

#[test]
fn slugify_collapses_separators() {
    assert_eq!(slugify("  財務・会計  ").chars().count(), 5);
    assert_eq!(slugify("Hello,  World!"), "hello_world");
    assert_eq!(slugify("__a--b__"), "a_b");
    assert_eq!(slugify("!!!"), "");
    assert_eq!(slugify("Ünïcode 42"), "Ünïcode_42");
}

#[test]
fn slug_from_given_classes() {
    let t: Vec<char> = "A-b  C_".chars().collect();
    let alnum = vec![true, false, true, false, false, true, false];
    assert_eq!(slug_from_classes(&t, &alnum), "a_b_c");
    let t: Vec<char> = "x_y".chars().collect();
    assert_eq!(slug_from_classes(&t, &vec![true, true, true]), "x_y");
}

#[test]
fn blank_lines_and_line_end_blanks_change_nothing() {
    let text = "Q: q\n1. a\n2. b\nA: 2\nE: e";
    let spaced = "\n \t \nQ: q   \n\n  1. a\n\u{3000}\n2. b\t\nA: 2\n\n E: e \n  \n";
    let a = parse_questions(text, 2025, "s").expect("should parse");
    let b = parse_questions(spaced, 2025, "s").expect("should parse");
    assert_eq!(a.len(), b.len());
    assert_eq!(a[0].id, b[0].id);
    assert_eq!(a[0].question_text, b[0].question_text);
    assert_eq!(a[0].choices, b[0].choices);
    assert_eq!(a[0].answer_index, b[0].answer_index);
    assert_eq!(a[0].explanation, b[0].explanation);
    let bad = "Q: q\n1. a\nA: 1";
    let bad_spaced = "\n\nQ: q \n 1. a\n\n A: 1 \n";
    assert_eq!(
        parse_questions(bad, 2025, "s").err().map(|e| e.message),
        parse_questions(bad_spaced, 2025, "s").err().map(|e| e.message)
    );
}

#[test]
fn subject_slug_is_idempotent() {
    for subject in ["  財務・会計  ", "Hello,  World!", "Law", "__a--b__", "Ünïcode 42", "!!!"] {
        let once = slugify(subject);
        assert_eq!(slugify(&once), once);
    }
    assert_eq!(slugify("Law"), "law");
}
