use drillbook::models::Question;
use drillbook::quiz::{judge_answer, pick_question, select_mode, AnswerOutcome, MenuChoice};

fn question() -> Question {
    Question {
        id: "2025_test_01".to_string(),
        year: 2025,
        subject: "テスト".to_string(),
        question_text: "問題".to_string(),
        choices: vec!["A".to_string(), "B".to_string(), "C".to_string()],
        answer_index: 1,
        explanation: "解説".to_string(),
    }
}

#[test]
fn judges_answers() {
    let q = question();
    assert_eq!(judge_answer(&q, "2\n"), AnswerOutcome::Correct);
    assert_eq!(judge_answer(&q, " +2 "), AnswerOutcome::Correct);
    assert_eq!(judge_answer(&q, "1"), AnswerOutcome::Incorrect);
    assert_eq!(judge_answer(&q, "3"), AnswerOutcome::Incorrect);
    assert_eq!(judge_answer(&q, "0"), AnswerOutcome::Invalid);
    assert_eq!(judge_answer(&q, "4"), AnswerOutcome::Invalid);
    assert_eq!(judge_answer(&q, "two"), AnswerOutcome::Invalid);
    assert_eq!(judge_answer(&q, ""), AnswerOutcome::Invalid);
    assert_eq!(judge_answer(&q, "99999999999999999999999999"), AnswerOutcome::Invalid);
}

#[test]
fn menu_choices() {
    assert_eq!(select_mode("1\n"), MenuChoice::Quiz);
    assert_eq!(select_mode(" 2 "), MenuChoice::BuildDataset);
    assert_eq!(select_mode("0"), MenuChoice::Exit);
    assert_eq!(select_mode("3"), MenuChoice::Invalid);
    assert_eq!(select_mode("01"), MenuChoice::Invalid);
}

#[test]
fn picks_one_of_the_questions() {
    assert!(pick_question(&[]).is_none());
    let qs = vec![question(), question()];
    let picked = pick_question(&qs).expect("should pick");
    assert_eq!(picked.id, "2025_test_01");
}
