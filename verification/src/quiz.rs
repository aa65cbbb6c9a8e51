//! The quiz: the choice in the start menu, the random pick of a question
//! and the judging of an answer.

use vstd::prelude::*;
use rand::seq::SliceRandom;
use crate::models::{Question, QuestionView};
use crate::text::{
    chars_of, dec, lemma_parse_dec, lemma_trim_blank, lemma_trim_no_ws,
    lemma_trim_white_space_ends, parse_usize, parse_usize_chars, trim, trim_chars,
    white_space_code,
};

verus! {

/// What the start menu asks for.
#[derive(PartialEq, Eq, Structural, Debug, Clone, Copy)]
pub enum MenuChoice {
    /// `1`: a quiz on the saved questions.
    Quiz,
    /// `2`: building the question bank.
    BuildDataset,
    /// `0`: leaving.
    Exit,
    /// Anything else.
    Invalid,
}

/// The menu entry that an input line asks for, once trimmed.
pub open spec fn menu_choice(input: Seq<char>) -> MenuChoice {
    let t = trim(input);
    if t == seq!['1'] {
        MenuChoice::Quiz
    } else if t == seq!['2'] {
        MenuChoice::BuildDataset
    } else if t == seq!['0'] {
        MenuChoice::Exit
    } else {
        MenuChoice::Invalid
    }
}

pub fn select_mode(input: &str) -> (r: MenuChoice)
    ensures
        r == menu_choice(input@),
{
    let t = trim_chars(&chars_of(input));
    if t.len() != 1 {
        return MenuChoice::Invalid;
    }
    let c = t[0];
    assert(t@ == seq![c]);
    if c == '1' {
        MenuChoice::Quiz
    } else if c == '2' {
        MenuChoice::BuildDataset
    } else if c == '0' {
        MenuChoice::Exit
    } else {
        MenuChoice::Invalid
    }
}

/// `rand::seq::SliceRandom::choose` with the thread's random generator.
/// The pick rests on chance: the contract says only that it is `None`
/// for no questions and else one of them.
#[verifier::external_body]
fn choose_question(questions: &[Question]) -> (r: Option<&Question>)
    ensures
        r is None <==> questions@.len() == 0,
        r matches Some(q) ==> exists|i: int| 0 <= i < questions@.len() && questions@[i] == *q,
{
    questions.choose(&mut rand::thread_rng())
}

/// A question picked at random, or `None` when there is none.
pub fn pick_question(questions: &[Question]) -> (r: Option<&Question>)
    ensures
        r is None <==> questions@.len() == 0,
        r matches Some(q) ==> exists|i: int| 0 <= i < questions@.len() && questions@[i] == *q,
{
    if questions.len() == 0 {
        return None;
    }
    choose_question(questions)
}

/// How an answer is judged.
#[derive(PartialEq, Eq, Structural, Debug, Clone, Copy)]
pub enum AnswerOutcome {
    /// The number of the right choice.
    Correct,
    /// The number of another choice.
    Incorrect,
    /// No number of a choice.
    Invalid,
}

/// The judgement of an input line: its trimmed text must be the number of
/// a choice, from 1; the answer is right when that choice is the question's
/// answer.
pub open spec fn judge(q: QuestionView, input: Seq<char>) -> AnswerOutcome {
    match parse_usize(trim(input)) {
        Some(n) => if 1 <= n && n <= q.choices.len() {
            if n - 1 == q.answer_index {
                AnswerOutcome::Correct
            } else {
                AnswerOutcome::Incorrect
            }
        } else {
            AnswerOutcome::Invalid
        },
        None => AnswerOutcome::Invalid,
    }
}

pub fn judge_answer(question: &Question, input: &str) -> (r: AnswerOutcome)
    ensures
        r == judge(question@, input@),
{
    let t = trim_chars(&chars_of(input));
    match parse_usize_chars(&t) {
        Some(n) => {
            if n >= 1 && n <= question.choices.len() {
                if n - 1 == question.answer_index {
                    AnswerOutcome::Correct
                } else {
                    AnswerOutcome::Incorrect
                }
            } else {
                AnswerOutcome::Invalid
            }
        },
        None => AnswerOutcome::Invalid,
    }
}


/// Answering with the number shown before a choice (from 1) is judged
/// right for the question's answer and wrong for any other choice; any
/// other number is no valid answer.
pub proof fn lemma_judge_choice_numbers(q: QuestionView)
    requires
        q.choices.len() <= usize::MAX,
    ensures
        forall|k: nat|
            1 <= k <= q.choices.len() ==> #[trigger] judge(q, dec(k)) == (if k - 1
                == q.answer_index {
                AnswerOutcome::Correct
            } else {
                AnswerOutcome::Incorrect
            }),
        forall|k: nat|
            (k == 0 || q.choices.len() < k <= usize::MAX) ==> #[trigger] judge(q, dec(k))
                == AnswerOutcome::Invalid,
{
    assert forall|k: nat| 1 <= k <= q.choices.len() implies #[trigger] judge(q, dec(k)) == (if k
        - 1 == q.answer_index {
        AnswerOutcome::Correct
    } else {
        AnswerOutcome::Incorrect
    }) by {
        lemma_parse_dec(k);
    }
    assert forall|k: nat| (k == 0 || q.choices.len() < k <= usize::MAX) implies #[trigger] judge(
        q,
        dec(k),
    ) == AnswerOutcome::Invalid by {
        lemma_parse_dec(k);
    }
}


/// The start menu reads the input without the whitespace around it (such
/// as the line feed that ends a typed line): `0`, `1` and `2` ask for
/// leaving, a quiz and building the question bank, anything else is no
/// choice.
pub proof fn lemma_menu_choice_reads_trimmed_input(c: char, s: Seq<char>)
    ensures
        white_space_code(c as u32) ==> menu_choice(s + seq![c]) == menu_choice(s)
            && menu_choice(seq![c] + s) == menu_choice(s),
        menu_choice(seq!['0']) == MenuChoice::Exit,
        menu_choice(seq!['1']) == MenuChoice::Quiz,
        menu_choice(seq!['2']) == MenuChoice::BuildDataset,
        (forall|i: int| 0 <= i < s.len() ==> white_space_code(#[trigger] s[i] as u32))
            ==> menu_choice(s) == MenuChoice::Invalid,
{
    lemma_trim_white_space_ends(c, s);
    lemma_trim_blank(s);
    lemma_trim_white_space_ends('0', Seq::<char>::empty());
    lemma_trim_white_space_ends('1', Seq::<char>::empty());
    lemma_trim_white_space_ends('2', Seq::<char>::empty());
    assert(seq!['0'] + Seq::<char>::empty() == seq!['0']);
    assert(seq!['1'] + Seq::<char>::empty() == seq!['1']);
    assert(seq!['2'] + Seq::<char>::empty() == seq!['2']);
    lemma_trim_no_ws(seq!['0']);
    lemma_trim_no_ws(seq!['1']);
    lemma_trim_no_ws(seq!['2']);
}

/// An answer is judged without the whitespace around it.
pub proof fn lemma_judge_reads_trimmed_input(q: QuestionView, c: char, s: Seq<char>)
    requires
        white_space_code(c as u32),
    ensures
        judge(q, s + seq![c]) == judge(q, s),
        judge(q, seq![c] + s) == judge(q, s),
{
    lemma_trim_white_space_ends(c, s);
}

} // verus!
