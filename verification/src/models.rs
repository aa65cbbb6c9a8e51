//! The question record that the parser produces and the quiz reads.

use vstd::prelude::*;
use crate::text::str_views;

verus! {

/// One multiple-choice question.
#[derive(Debug)]
pub struct Question {
    pub id: String,
    pub year: u32,
    pub subject: String,
    pub question_text: String,
    pub choices: Vec<String>,
    pub answer_index: usize,
    pub explanation: String,
}

/// A question as plain text values.
pub struct QuestionView {
    pub id: Seq<char>,
    pub year: u32,
    pub subject: Seq<char>,
    pub question_text: Seq<char>,
    pub choices: Seq<Seq<char>>,
    pub answer_index: nat,
    pub explanation: Seq<char>,
}

impl View for Question {
    type V = QuestionView;

    open spec fn view(&self) -> QuestionView {
        QuestionView {
            id: self.id@,
            year: self.year,
            subject: self.subject@,
            question_text: self.question_text@,
            choices: str_views(self.choices@),
            answer_index: self.answer_index as nat,
            explanation: self.explanation@,
        }
    }
}

/// The views of a sequence of questions.
pub open spec fn question_views(qs: Seq<Question>) -> Seq<QuestionView> {
    qs.map_values(|q: Question| q@)
}

} // verus!
