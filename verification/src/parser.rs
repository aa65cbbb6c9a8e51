//! The plain-text question format.
//!
//! A text holds one or more question blocks. Each non-blank line is taken
//! without its surrounding whitespace; a line that starts with `Q:` or
//! `問題:` opens a new block. Inside a block, `Q:`/`問題:` gives the
//! question, a numbered line such as `1. ...` gives a choice, `A:`/`答え:`
//! gives the number of the right choice (from 1), and `E:`/`解説:` gives
//! the explanation.

use vstd::prelude::*;
use crate::models::{Question, QuestionView, question_views};
use crate::text::{
    append_chars, ascii_lower, char_alphanumeric, char_views, chars_of, collapse_us, dec, dec2,
    decimal, decimal2, find, find_chars, find_from, has_prefix, is_alphanumeric, is_ascii_alnum,
    is_ascii_digit, is_ascii_lower_alnum, is_ascii_text, is_slug_shaped, is_ws,
    lemma_collapse_identity, lemma_collapse_keeps_class, lemma_collapse_no_double,
    lemma_dec2_value, lemma_dec_value, lemma_is_ws_code_pub, lemma_parse_dec, lemma_strip_identity,
    lemma_strip_shape, lemma_trim_no_ws, lemma_trim_white_space_ends, lower_ascii, occurs_at, parse_usize, parse_usize_chars,
    starts_with, str_views, string_of, strings_of, strip_underscores, strip_us, sub_chars, trim,
    trim_bounds, trim_chars, white_space_code,
};

verus! {

/// The error of a text that does not hold well-formed questions.
#[derive(Debug)]
pub struct ParseError {
    pub message: String,
}

impl ParseError {
    /// The message of the error.
    pub fn to_string(&self) -> (r: String)
        ensures
            r@ == self.message@,
    {
        self.message.clone()
    }
}

// ---------------------------------------------------------------------
// Messages
// ---------------------------------------------------------------------

pub open spec fn msg_no_blocks() -> Seq<char> {
    "設問ブロックが見つかりませんでした。"@
}

pub open spec fn msg_bad_answer(answer: Seq<char>) -> Seq<char> {
    "正答番号の解析に失敗しました: "@ + answer
}

pub open spec fn msg_answer_zero() -> Seq<char> {
    "正答番号は1以上で指定してください。"@
}

pub open spec fn msg_no_question() -> Seq<char> {
    "問題文が見つかりませんでした。"@
}

pub open spec fn msg_few_choices() -> Seq<char> {
    "選択肢が2件未満です。"@
}

pub open spec fn msg_no_answer() -> Seq<char> {
    "正答が見つかりませんでした。"@
}

pub open spec fn msg_answer_range() -> Seq<char> {
    "正答番号が選択肢範囲外です。"@
}

/// The explanation of a question whose block gives none.
pub open spec fn no_explanation() -> Seq<char> {
    "（解説なし）"@
}

fn error(message: &str) -> (r: ParseError)
    ensures
        r.message@ == message@,
{
    ParseError { message: String::from_str(message) }
}

// ---------------------------------------------------------------------
// Line prefixes
// ---------------------------------------------------------------------

pub open spec fn question_prefixes() -> Seq<Seq<char>> {
    seq![seq!['Q', ':'], seq!['問', '題', ':']]
}

pub open spec fn answer_prefixes() -> Seq<Seq<char>> {
    seq![seq!['A', ':'], seq!['答', 'え', ':']]
}

pub open spec fn explanation_prefixes() -> Seq<Seq<char>> {
    seq![seq!['E', ':'], seq!['解', '説', ':']]
}

/// The rest of `line`, trimmed, after the first of `prefixes` that it
/// starts with.
pub open spec fn strip_first_prefix(line: Seq<char>, prefixes: Seq<Seq<char>>) -> Option<Seq<char>>
    decreases prefixes.len(),
{
    if prefixes.len() == 0 {
        None
    } else if starts_with(line, prefixes[0]) {
        Some(trim(line.skip(prefixes[0].len() as int)))
    } else {
        strip_first_prefix(line, prefixes.drop_first())
    }
}

fn question_prefix_chars() -> (r: Vec<Vec<char>>)
    ensures
        char_views(r@) == question_prefixes(),
{
    let r = vec![vec!['Q', ':'], vec!['問', '題', ':']];
    assert(char_views(r@) =~= question_prefixes());
    r
}

fn answer_prefix_chars() -> (r: Vec<Vec<char>>)
    ensures
        char_views(r@) == answer_prefixes(),
{
    let r = vec![vec!['A', ':'], vec!['答', 'え', ':']];
    assert(char_views(r@) =~= answer_prefixes());
    r
}

fn explanation_prefix_chars() -> (r: Vec<Vec<char>>)
    ensures
        char_views(r@) == explanation_prefixes(),
{
    let r = vec![vec!['E', ':'], vec!['解', '説', ':']];
    assert(char_views(r@) =~= explanation_prefixes());
    r
}

/// The rest of `line`, trimmed, after the first of `prefixes` that it
/// starts with; `None` when it starts with none of them.
pub fn extract_prefixed(line: &Vec<char>, prefixes: &Vec<Vec<char>>) -> (r: Option<Vec<char>>)
    ensures
        match r {
            Some(v) => strip_first_prefix(line@, char_views(prefixes@)) == Some(v@),
            None => strip_first_prefix(line@, char_views(prefixes@)) is None,
        },
{
    let mut i: usize = 0;
    assert(char_views(prefixes@).skip(0) == char_views(prefixes@));
    while i < prefixes.len()
        invariant
            i <= prefixes.len(),
            strip_first_prefix(line@, char_views(prefixes@)) == strip_first_prefix(
                line@,
                char_views(prefixes@).skip(i as int),
            ),
        decreases prefixes.len() - i,
    {
        let ghost ps = char_views(prefixes@).skip(i as int);
        assert(ps[0] == prefixes@[i as int]@);
        assert(ps.drop_first() == char_views(prefixes@).skip(i + 1));
        if has_prefix(line, &prefixes[i]) {
            let p_len = prefixes[i].len();
            let rest = sub_chars(line, p_len, line.len());
            assert(rest@ == line@.skip(p_len as int));
            return Some(trim_chars(&rest));
        }
        i = i + 1;
    }
    None
}

// ---------------------------------------------------------------------
// Choices
// ---------------------------------------------------------------------

/// The markers that separate a choice's number from its text, in the
/// order in which they are tried.
pub open spec fn choice_markers() -> Seq<Seq<char>> {
    seq![seq!['.', ' '], seq![')', ' '], seq!['．']]
}

/// A choice number: what `usize::from_str` accepts, or one of the
/// full-width digits `１` to `４`.
pub open spec fn is_choice_number(head: Seq<char>) -> bool {
    ||| parse_usize(head) is Some
    ||| head == seq!['１']
    ||| head == seq!['２']
    ||| head == seq!['３']
    ||| head == seq!['４']
}

/// What splitting `line` at the first `marker` shows: `None` when the
/// marker does not occur (which ends the search), `Some(Some(text))` for a
/// choice, `Some(None)` when the line is no choice at this marker.
pub open spec fn choice_at_marker(line: Seq<char>, marker: Seq<char>) -> Option<Option<Seq<char>>> {
    match find(line, marker) {
        None => None,
        Some(i) => {
            let head = trim(line.take(i as int));
            let tail = trim(line.skip((i + marker.len()) as int));
            if is_choice_number(head) && tail.len() > 0 {
                Some(Some(tail))
            } else {
                Some(None)
            }
        },
    }
}

pub open spec fn choice_over(line: Seq<char>, markers: Seq<Seq<char>>) -> Option<Seq<char>>
    decreases markers.len(),
{
    if markers.len() == 0 {
        None
    } else {
        match choice_at_marker(line, markers[0]) {
            None => None,
            Some(Some(t)) => Some(t),
            Some(None) => choice_over(line, markers.drop_first()),
        }
    }
}

/// The text of the choice that `line` gives, if it gives one.
pub open spec fn choice_text(line: Seq<char>) -> Option<Seq<char>> {
    choice_over(line, choice_markers())
}

fn is_full_width_choice_digit(head: &Vec<char>) -> (r: bool)
    ensures
        r == (head@ == seq!['１'] || head@ == seq!['２'] || head@ == seq!['３'] || head@
            == seq!['４']),
{
    if head.len() != 1 {
        return false;
    }
    let c = head[0];
    let r = c == '１' || c == '２' || c == '３' || c == '４';
    assert(head@ == seq![c]);
    r
}

/// The text of the choice that `line` gives: for each marker in turn, the
/// line is split at its first occurrence; when the part before it is a
/// choice number and the part after it is not blank, that part, trimmed,
/// is the choice. A marker that does not occur ends the search.
pub fn extract_choice(line: &Vec<char>) -> (r: Option<Vec<char>>)
    ensures
        match r {
            Some(v) => choice_text(line@) == Some(v@),
            None => choice_text(line@) is None,
        },
{
    let markers = vec![vec!['.', ' '], vec![')', ' '], vec!['．']];
    assert(markers@[0]@ == seq!['.', ' ']);
    assert(markers@[1]@ == seq![')', ' ']);
    assert(markers@[2]@ == seq!['．']);
    assert(char_views(markers@) =~= choice_markers());
    let mut i: usize = 0;
    assert(choice_markers().skip(0) == choice_markers());
    while i < markers.len()
        invariant
            i <= markers.len() == 3,
            char_views(markers@) == choice_markers(),
            forall|k: int| 0 <= k < 3 ==> (#[trigger] markers@[k])@.len() > 0,
            choice_text(line@) == choice_over(line@, choice_markers().skip(i as int)),
        decreases markers.len() - i,
    {
        let ghost ms = choice_markers().skip(i as int);
        assert(ms[0] == markers@[i as int]@);
        assert(ms.drop_first() == choice_markers().skip(i + 1));
        let marker = &markers[i];
        match find_chars(line, marker) {
            None => {
                return None;
            },
            Some(at) => {
                let (h0, h1) = trim_bounds(line, 0, at);
                let head = sub_chars(line, h0, h1);
                let (t0, t1) = trim_bounds(line, at + marker.len(), line.len());
                assert(line@.subrange(0, at as int) == line@.take(at as int));
                assert(line@.subrange(at + marker.len(), line.len() as int) == line@.skip(
                    at + marker@.len(),
                ));
                let number = match parse_usize_chars(&head) {
                    Some(_) => true,
                    None => is_full_width_choice_digit(&head),
                };
                if number && t1 > t0 {
                    return Some(sub_chars(line, t0, t1));
                }
            },
        }
        i = i + 1;
    }
    None
}


// ---------------------------------------------------------------------
// Blocks
// ---------------------------------------------------------------------

/// The question, the choices, the index of the right choice and the
/// explanation of a block.
pub type BlockParts = (Seq<char>, Seq<Seq<char>>, nat, Seq<char>);

/// What the lines of a block have given so far.
pub struct BlockState {
    pub question: Seq<char>,
    pub choices: Seq<Seq<char>>,
    pub answer: Option<nat>,
    pub explanation: Seq<char>,
}

pub open spec fn empty_block_state() -> BlockState {
    BlockState { question: seq![], choices: seq![], answer: None, explanation: seq![] }
}

/// The effect of one line of a block. The kinds of line are tried in the
/// order question, choice, answer, explanation; a line of none of these
/// kinds changes nothing. A later question, answer or explanation line
/// replaces an earlier one; an answer that is no number, or is 0, is an
/// error.
pub open spec fn scan_line(st: BlockState, line: Seq<char>) -> Result<BlockState, Seq<char>> {
    match strip_first_prefix(line, question_prefixes()) {
        Some(q) => Ok(
            BlockState {
                question: q,
                choices: st.choices,
                answer: st.answer,
                explanation: st.explanation,
            },
        ),
        None => match choice_text(line) {
            Some(c) => Ok(
                BlockState {
                    question: st.question,
                    choices: st.choices.push(c),
                    answer: st.answer,
                    explanation: st.explanation,
                },
            ),
            None => match strip_first_prefix(line, answer_prefixes()) {
                Some(a) => match parse_usize(a) {
                    None => Err(msg_bad_answer(a)),
                    Some(n) => if n == 0 {
                        Err(msg_answer_zero())
                    } else {
                        Ok(
                            BlockState {
                                question: st.question,
                                choices: st.choices,
                                answer: Some((n - 1) as nat),
                                explanation: st.explanation,
                            },
                        )
                    },
                },
                None => match strip_first_prefix(line, explanation_prefixes()) {
                    Some(e) => Ok(
                        BlockState {
                            question: st.question,
                            choices: st.choices,
                            answer: st.answer,
                            explanation: e,
                        },
                    ),
                    None => Ok(st),
                },
            },
        },
    }
}

/// The lines of a block, taken in order; the first error ends the scan.
pub open spec fn scan_block(lines: Seq<Seq<char>>) -> Result<BlockState, Seq<char>>
    decreases lines.len(),
{
    if lines.len() == 0 {
        Ok(empty_block_state())
    } else {
        match scan_block(lines.drop_last()) {
            Err(m) => Err(m),
            Ok(st) => scan_line(st, lines.last()),
        }
    }
}

/// The question, choices, answer index and explanation of a scanned block,
/// or the error of the first check that it fails.
pub open spec fn finish_block(st: BlockState) -> Result<BlockParts, Seq<char>> {
    if st.question.len() == 0 {
        Err(msg_no_question())
    } else if st.choices.len() < 2 {
        Err(msg_few_choices())
    } else {
        match st.answer {
            None => Err(msg_no_answer()),
            Some(a) => if a >= st.choices.len() {
                Err(msg_answer_range())
            } else {
                Ok(
                    (
                        st.question,
                        st.choices,
                        a,
                        if st.explanation.len() == 0 {
                            no_explanation()
                        } else {
                            st.explanation
                        },
                    ),
                )
            },
        }
    }
}

/// What a block of lines gives.
pub open spec fn block_result(lines: Seq<Seq<char>>) -> Result<BlockParts, Seq<char>> {
    match scan_block(lines) {
        Err(m) => Err(m),
        Ok(st) => finish_block(st),
    }
}

proof fn lemma_scan_error_persists(lines: Seq<Seq<char>>, k: int)
    requires
        0 <= k <= lines.len(),
        scan_block(lines.take(k)) is Err,
    ensures
        scan_block(lines) == scan_block(lines.take(k)),
    decreases lines.len(),
{
    if k < lines.len() {
        assert(lines.drop_last().take(k) == lines.take(k));
        lemma_scan_error_persists(lines.drop_last(), k);
    } else {
        assert(lines.take(k) == lines);
    }
}

pub open spec fn opt_nat(o: Option<usize>) -> Option<nat> {
    match o {
        Some(a) => Some(a as nat),
        None => None,
    }
}

/// The question, the choices, the index of the right choice and the
/// explanation that a block of lines gives.
pub fn parse_block(block: &[String]) -> (r: Result<(String, Vec<String>, usize, String), ParseError>)
    ensures
        match r {
            Ok((q, cs, a, e)) => block_result(str_views(block@)) == Ok::<BlockParts, Seq<char>>(
                (q@, str_views(cs@), a as nat, e@),
            ),
            Err(err) => block_result(str_views(block@)) == Err::<BlockParts, Seq<char>>(
                err.message@,
            ),
        },
{
    let ghost lines = str_views(block@);
    let qp = question_prefix_chars();
    let ap = answer_prefix_chars();
    let ep = explanation_prefix_chars();
    let mut question: Vec<char> = Vec::new();
    let mut choices: Vec<Vec<char>> = Vec::new();
    let mut answer: Option<usize> = None;
    let mut explanation: Vec<char> = Vec::new();
    let mut i: usize = 0;
    assert(lines.take(0) == Seq::<Seq<char>>::empty());
    assert(char_views(choices@) =~= Seq::<Seq<char>>::empty());
    while i < block.len()
        invariant
            i <= block.len(),
            lines == str_views(block@),
            char_views(qp@) == question_prefixes(),
            char_views(ap@) == answer_prefixes(),
            char_views(ep@) == explanation_prefixes(),
            scan_block(lines.take(i as int)) == Ok::<BlockState, Seq<char>>(
                BlockState {
                    question: question@,
                    choices: char_views(choices@),
                    answer: opt_nat(answer),
                    explanation: explanation@,
                },
            ),
        decreases block.len() - i,
    {
        let line = chars_of(block[i].as_str());
        let ghost st = BlockState {
            question: question@,
            choices: char_views(choices@),
            answer: opt_nat(answer),
            explanation: explanation@,
        };
        assert(lines.take(i + 1).drop_last() == lines.take(i as int));
        assert(lines.take(i + 1).last() == line@);
        let ghost next = scan_line(st, line@);
        assert(scan_block(lines.take(i + 1)) == next);
        match extract_prefixed(&line, &qp) {
            Some(q) => {
                question = q;
            },
            None => match extract_choice(&line) {
                Some(c) => {
                    let ghost prev = choices@;
                    choices.push(c);
                    assert(char_views(choices@) =~= char_views(prev).push(c@));
                },
                None => match extract_prefixed(&line, &ap) {
                    Some(a) => match parse_usize_chars(&a) {
                        None => {
                            proof {
                                lemma_scan_error_persists(lines, i + 1);
                                assert(lines.take(block.len() as int) == lines);
                            }
                            let mut m = String::from_str("正答番号の解析に失敗しました: ");
                            let a_text = string_of(&a);
                            m.append(a_text.as_str());
                            return Err(ParseError { message: m });
                        },
                        Some(n) => {
                            if n == 0 {
                                proof {
                                    lemma_scan_error_persists(lines, i + 1);
                                    assert(lines.take(block.len() as int) == lines);
                                }
                                return Err(error("正答番号は1以上で指定してください。"));
                            }
                            answer = Some(n - 1);
                        },
                    },
                    None => match extract_prefixed(&line, &ep) {
                        Some(e) => {
                            explanation = e;
                        },
                        None => {},
                    },
                },
            },
        }
        i = i + 1;
    }
    assert(lines.take(block.len() as int) == lines);
    if question.len() == 0 {
        return Err(error("問題文が見つかりませんでした。"));
    }
    if choices.len() < 2 {
        return Err(error("選択肢が2件未満です。"));
    }
    let answer_index = match answer {
        None => {
            return Err(error("正答が見つかりませんでした。"));
        },
        Some(a) => a,
    };
    if answer_index >= choices.len() {
        return Err(error("正答番号が選択肢範囲外です。"));
    }
    let explanation_text = if explanation.len() == 0 {
        String::from_str("（解説なし）")
    } else {
        string_of(&explanation)
    };
    Ok((string_of(&question), strings_of(&choices), answer_index, explanation_text))
}


// ---------------------------------------------------------------------
// Splitting a text into blocks
// ---------------------------------------------------------------------

/// The lines of `s` that end in a line feed, and the line after the last
/// line feed.
pub open spec fn split_at_newlines(s: Seq<char>) -> (Seq<Seq<char>>, Seq<char>)
    decreases s.len(),
{
    if s.len() == 0 {
        (seq![], seq![])
    } else {
        let (done, cur) = split_at_newlines(s.drop_last());
        if s.last() == '\n' {
            (done.push(cur), seq![])
        } else {
            (done, cur.push(s.last()))
        }
    }
}

/// The pieces of `s` between line feeds.
pub open spec fn text_lines(s: Seq<char>) -> Seq<Seq<char>> {
    let (done, cur) = split_at_newlines(s);
    done.push(cur)
}

/// The lines, trimmed, that are not blank.
pub open spec fn nonblank_lines(lines: Seq<Seq<char>>) -> Seq<Seq<char>>
    decreases lines.len(),
{
    if lines.len() == 0 {
        seq![]
    } else {
        let p = nonblank_lines(lines.drop_last());
        let t = trim(lines.last());
        if t.len() == 0 {
            p
        } else {
            p.push(t)
        }
    }
}

/// The trimmed non-blank lines of a text. (`str::lines` differs from a
/// split at line feeds only in a carriage return before the line feed and
/// in a last empty line, which trimming and skipping blank lines remove.)
pub open spec fn content_lines(text: Seq<char>) -> Seq<Seq<char>> {
    nonblank_lines(text_lines(text))
}

/// A line that opens a question block.
pub open spec fn is_question_header(line: Seq<char>) -> bool {
    starts_with(line, seq!['Q', ':']) || starts_with(line, seq!['問', '題', ':'])
}

/// The blocks that the lines close, and the block still open: a header
/// line closes the open block unless it is empty.
pub open spec fn group_lines(lines: Seq<Seq<char>>) -> (Seq<Seq<Seq<char>>>, Seq<Seq<char>>)
    decreases lines.len(),
{
    if lines.len() == 0 {
        (seq![], seq![])
    } else {
        let (blocks, cur) = group_lines(lines.drop_last());
        let l = lines.last();
        if is_question_header(l) && cur.len() > 0 {
            (blocks.push(cur), seq![l])
        } else {
            (blocks, cur.push(l))
        }
    }
}

/// The question blocks of a text, each a sequence of trimmed non-blank
/// lines.
pub open spec fn blocks_of(text: Seq<char>) -> Seq<Seq<Seq<char>>> {
    let (blocks, cur) = group_lines(content_lines(text));
    if cur.len() > 0 {
        blocks.push(cur)
    } else {
        blocks
    }
}

pub open spec fn block_views(v: Seq<Vec<Vec<char>>>) -> Seq<Seq<Seq<char>>> {
    v.map_values(|b: Vec<Vec<char>>| char_views(b@))
}

pub open spec fn string_block_views(v: Seq<Vec<String>>) -> Seq<Seq<Seq<char>>> {
    v.map_values(|b: Vec<String>| str_views(b@))
}

fn copy_chars(v: &Vec<char>) -> (r: Vec<char>)
    ensures
        r@ == v@,
{
    let r = sub_chars(v, 0, v.len());
    assert(v@.subrange(0, v.len() as int) == v@);
    r
}

fn is_header(line: &Vec<char>) -> (r: bool)
    ensures
        r == is_question_header(line@),
{
    let q = vec!['Q', ':'];
    let m = vec!['問', '題', ':'];
    assert(q@ == seq!['Q', ':']);
    assert(m@ == seq!['問', '題', ':']);
    has_prefix(line, &q) || has_prefix(line, &m)
}

/// The trimmed non-blank lines of `text`.
fn content_line_chars(text: &str) -> (r: Vec<Vec<char>>)
    ensures
        char_views(r@) == content_lines(text@),
{
    let chars = chars_of(text);
    let mut content: Vec<Vec<char>> = Vec::new();
    let mut cur: Vec<char> = Vec::new();
    let ghost mut done: Seq<Seq<char>> = seq![];
    let mut i: usize = 0;
    assert(chars@.take(0) == Seq::<char>::empty());
    assert(char_views(content@) =~= Seq::<Seq<char>>::empty());
    while i < chars.len()
        invariant
            i <= chars.len(),
            chars@ == text@,
            split_at_newlines(chars@.take(i as int)) == (done, cur@),
            char_views(content@) == nonblank_lines(done),
        decreases chars.len() - i,
    {
        let c = chars[i];
        assert(chars@.take(i + 1).drop_last() == chars@.take(i as int));
        assert(chars@.take(i + 1).last() == c);
        if c == '\n' {
            let t = trim_chars(&cur);
            assert(done.push(cur@).drop_last() == done);
            if t.len() > 0 {
                let ghost prev = content@;
                content.push(t);
                assert(char_views(content@) =~= char_views(prev).push(t@));
            }
            proof {
                done = done.push(cur@);
            }
            cur = Vec::new();
        } else {
            cur.push(c);
        }
        i = i + 1;
    }
    assert(chars@.take(chars.len() as int) == chars@);
    let t = trim_chars(&cur);
    assert(done.push(cur@).drop_last() == done);
    if t.len() > 0 {
        let ghost prev = content@;
        content.push(t);
        assert(char_views(content@) =~= char_views(prev).push(t@));
    }
    content
}

/// The question blocks of `text`, each a list of trimmed non-blank lines.
pub fn split_blocks(text: &str) -> (r: Vec<Vec<String>>)
    ensures
        string_block_views(r@) == blocks_of(text@),
{
    let content = content_line_chars(text);
    let ghost lines = char_views(content@);
    let mut blocks: Vec<Vec<Vec<char>>> = Vec::new();
    let mut current: Vec<Vec<char>> = Vec::new();
    let mut j: usize = 0;
    assert(lines.take(0) == Seq::<Seq<char>>::empty());
    assert(block_views(blocks@) =~= Seq::<Seq<Seq<char>>>::empty());
    assert(char_views(current@) =~= Seq::<Seq<char>>::empty());
    while j < content.len()
        invariant
            j <= content.len(),
            lines == char_views(content@),
            group_lines(lines.take(j as int)) == (block_views(blocks@), char_views(current@)),
        decreases content.len() - j,
    {
        let line = copy_chars(&content[j]);
        assert(lines.take(j + 1).drop_last() == lines.take(j as int));
        assert(lines.take(j + 1).last() == line@);
        if is_header(&line) && current.len() > 0 {
            let ghost prev = blocks@;
            let ghost closed = current@;
            blocks.push(current);
            assert(block_views(blocks@) =~= block_views(prev).push(char_views(closed)));
            current = Vec::new();
            current.push(line);
            assert(char_views(current@) =~= seq![line@]);
        } else {
            let ghost prev = current@;
            current.push(line);
            assert(char_views(current@) =~= char_views(prev).push(line@));
        }
        j = j + 1;
    }
    assert(lines.take(content.len() as int) == lines);
    if current.len() > 0 {
        let ghost prev = blocks@;
        let ghost closed = current@;
        blocks.push(current);
        assert(block_views(blocks@) =~= block_views(prev).push(char_views(closed)));
    }
    let mut out: Vec<Vec<String>> = Vec::new();
    let mut k: usize = 0;
    while k < blocks.len()
        invariant
            k <= blocks.len(),
            out@.len() == k,
            string_block_views(out@) == block_views(blocks@).take(k as int),
        decreases blocks.len() - k,
    {
        let b = strings_of(&blocks[k]);
        let ghost prev = out@;
        out.push(b);
        k = k + 1;
        assert forall|x: int| 0 <= x < k implies #[trigger] string_block_views(out@)[x]
            == block_views(blocks@).take(k as int)[x] by {
            if x < k - 1 {
                assert(out@[x] == prev[x]);
                assert(string_block_views(prev)[x] == block_views(blocks@).take(k - 1)[x]);
            }
        }
        assert(string_block_views(out@) =~= block_views(blocks@).take(k as int));
    }
    assert(block_views(blocks@).take(blocks.len() as int) == block_views(blocks@));
    out
}


// ---------------------------------------------------------------------
// Subject slugs and questions
// ---------------------------------------------------------------------

/// The characters of a subject slug before underscores are collapsed: each
/// character marked alphanumeric in ASCII lower case, any other an
/// underscore.
pub open spec fn slug_chars(t: Seq<char>, alnum: Seq<bool>) -> Seq<char> {
    Seq::new(t.len(), |i: int| if alnum[i] { ascii_lower(t[i]) } else { '_' })
}

/// The slug of a trimmed subject whose characters are marked alphanumeric
/// or not: runs of underscores cut to one, none at either end.
pub open spec fn slug_of_classes(t: Seq<char>, alnum: Seq<bool>) -> Seq<char> {
    strip_us(collapse_us(slug_chars(t, alnum)))
}

/// The slug of a subject in question ids: its trimmed text with the
/// alphanumeric characters in ASCII lower case, each run of other
/// characters replaced by one underscore, and no underscore at either end.
pub open spec fn subject_slug(subject: Seq<char>) -> Seq<char> {
    let t = trim(subject);
    slug_of_classes(t, t.map_values(|c: char| char_alphanumeric(c)))
}

/// The slug of the trimmed subject `t`, where `alnum[i]` tells whether
/// `t[i]` is alphanumeric.
pub fn slug_from_classes(t: &Vec<char>, alnum: &Vec<bool>) -> (r: String)
    requires
        alnum.len() == t.len(),
    ensures
        r@ == slug_of_classes(t@, alnum@),
{
    let ghost mapped = slug_chars(t@, alnum@);
    let mut out: Vec<char> = Vec::new();
    let mut i: usize = 0;
    assert(mapped.take(0) == Seq::<char>::empty());
    while i < t.len()
        invariant
            i <= t.len() == alnum.len(),
            mapped == slug_chars(t@, alnum@),
            out@ == collapse_us(mapped.take(i as int)),
        decreases t.len() - i,
    {
        let c = if alnum[i] {
            lower_ascii(t[i])
        } else {
            '_'
        };
        assert(mapped.take(i + 1).drop_last() == mapped.take(i as int));
        assert(mapped.take(i + 1).last() == c);
        if c != '_' || out.len() == 0 || out[out.len() - 1] != '_' {
            out.push(c);
        }
        i = i + 1;
    }
    assert(mapped.take(t.len() as int) == mapped);
    let stripped = strip_underscores(&out);
    string_of(&stripped)
}

/// A character that a subject slug may hold: an underscore, an ASCII
/// lower-case letter or digit, or an alphanumeric character beyond ASCII
/// that is not whitespace.
pub open spec fn is_subject_slug_char(c: char) -> bool {
    ||| c == '_'
    ||| is_ascii_lower_alnum(c)
    ||| ((c as u32) >= 128 && !is_ws(c) && char_alphanumeric(c))
}

/// A subject slug: slug-shaped, and made of subject slug characters.
pub open spec fn is_subject_slug(s: Seq<char>) -> bool {
    &&& is_slug_shaped(s)
    &&& forall|i: int| 0 <= i < s.len() ==> is_subject_slug_char(#[trigger] s[i])
}

/// The slug of `input` for question ids. For ASCII text the alphanumeric
/// characters are its letters and digits; a slug is its own slug.
pub fn slugify(input: &str) -> (r: String)
    ensures
        r@ == subject_slug(input@),
        is_ascii_text(trim(input@)) ==> r@ == slug_of_classes(
            trim(input@),
            trim(input@).map_values(|c: char| is_ascii_alnum(c)),
        ),
        is_subject_slug(r@),
        is_subject_slug(input@) ==> r@ == input@,
{
    let t = trim_chars(&chars_of(input));
    let mut alnum: Vec<bool> = Vec::new();
    let mut i: usize = 0;
    while i < t.len()
        invariant
            i <= t.len(),
            alnum@ == t@.take(i as int).map_values(|c: char| char_alphanumeric(c)),
            forall|k: int|
                0 <= k < i ==> ((#[trigger] t@[k] as u32) < 128 ==> (char_alphanumeric(t@[k])
                    <==> is_ascii_alnum(t@[k]))) && (is_ws(t@[k]) ==> !char_alphanumeric(
                    t@[k],
                )),
        decreases t.len() - i,
    {
        let a = is_alphanumeric(t[i]);
        alnum.push(a);
        i = i + 1;
        assert(alnum@ =~= t@.take(i as int).map_values(|c: char| char_alphanumeric(c)));
    }
    assert(t@.take(t.len() as int) == t@);
    let r = slug_from_classes(&t, &alnum);
    proof {
        let flags = alnum@;
        let m = slug_chars(t@, flags);
        if is_ascii_text(t@) {
            assert(flags =~= t@.map_values(|c: char| is_ascii_alnum(c)));
        }
        assert forall|k: int| 0 <= k < m.len() implies is_subject_slug_char(#[trigger] m[k]) by {
            let c = t@[k];
            if flags[k] {
                assert(m[k] == ascii_lower(c));
            }
        }
        lemma_collapse_keeps_class(m, |c: char| is_subject_slug_char(c));
        lemma_collapse_no_double(m);
        let cm = collapse_us(m);
        lemma_strip_shape(cm);
        let (a, b) = choose|a: int, b: int| 0 <= a <= b <= cm.len() && strip_us(cm) == cm.subrange(a, b);
        assert forall|k: int| 0 <= k < r@.len() implies is_subject_slug_char(#[trigger] r@[k]) by {
            assert(r@[k] == cm[a + k]);
        }
        if is_subject_slug(input@) {
            let s = input@;
            assert forall|k: int| 0 <= k < s.len() implies !is_ws(#[trigger] s[k]) by {
                assert(is_subject_slug_char(s[k]));
            }
            lemma_trim_no_ws(s);
            assert forall|k: int| 0 <= k < s.len() implies #[trigger] m[k] == s[k] by {
                assert(is_subject_slug_char(s[k]));
                assert(t@[k] == s[k]);
            }
            assert(m =~= s);
            lemma_collapse_identity(s);
            lemma_strip_identity(s);
        }
    }
    r
}

/// The id of the `number`th question (from 1) of a subject in a year:
/// the year, the subject's slug and the number in at least two digits,
/// joined by underscores.
pub open spec fn question_id(year: u32, slug: Seq<char>, number: nat) -> Seq<char> {
    dec(year as nat) + seq!['_'] + slug + seq!['_'] + dec2(number)
}

/// The questions of `blocks`, numbered from 1 in order, or the error of the
/// first block that is not well formed.
pub open spec fn questions_of(
    blocks: Seq<Seq<Seq<char>>>,
    year: u32,
    subject: Seq<char>,
    slug: Seq<char>,
) -> Result<Seq<QuestionView>, Seq<char>>
    decreases blocks.len(),
{
    if blocks.len() == 0 {
        Ok(seq![])
    } else {
        match questions_of(blocks.drop_last(), year, subject, slug) {
            Err(m) => Err(m),
            Ok(qs) => match block_result(blocks.last()) {
                Err(m) => Err(m),
                Ok((q, c, a, e)) => Ok(
                    qs.push(
                        QuestionView {
                            id: question_id(year, slug, blocks.len()),
                            year,
                            subject,
                            question_text: q,
                            choices: c,
                            answer_index: a,
                            explanation: e,
                        },
                    ),
                ),
            },
        }
    }
}

/// The questions of a text: an error when it has no block, else the
/// questions of its blocks.
pub open spec fn parse_result(text: Seq<char>, year: u32, subject: Seq<char>) -> Result<
    Seq<QuestionView>,
    Seq<char>,
> {
    let blocks = blocks_of(text);
    if blocks.len() == 0 {
        Err(msg_no_blocks())
    } else {
        questions_of(blocks, year, subject, subject_slug(subject))
    }
}

proof fn lemma_questions_error_persists(
    blocks: Seq<Seq<Seq<char>>>,
    year: u32,
    subject: Seq<char>,
    slug: Seq<char>,
    k: int,
)
    requires
        0 <= k <= blocks.len(),
        questions_of(blocks.take(k), year, subject, slug) is Err,
    ensures
        questions_of(blocks, year, subject, slug) == questions_of(
            blocks.take(k),
            year,
            subject,
            slug,
        ),
    decreases blocks.len(),
{
    if k < blocks.len() {
        assert(blocks.drop_last().take(k) == blocks.take(k));
        lemma_questions_error_persists(blocks.drop_last(), year, subject, slug, k);
    } else {
        assert(blocks.take(k) == blocks);
    }
}

/// `year_slug_` followed by the question number in at least two digits.
fn make_id(year: u32, slug: &Vec<char>, number: usize) -> (r: String)
    ensures
        r@ == question_id(year, slug@, number as nat),
{
    let mut id = decimal(year as u64);
    id.push('_');
    append_chars(&mut id, slug);
    id.push('_');
    let n = decimal2(number as u64);
    append_chars(&mut id, &n);
    string_of(&id)
}

/// The questions of `text`, numbered in order, with ids made from `year`
/// and `subject`.
pub fn parse_questions(text: &str, year: u32, subject: &str) -> (r: Result<Vec<Question>, ParseError>)
    ensures
        match r {
            Ok(qs) => parse_result(text@, year, subject@) == Ok::<Seq<QuestionView>, Seq<char>>(
                question_views(qs@),
            ),
            Err(e) => parse_result(text@, year, subject@) == Err::<Seq<QuestionView>, Seq<char>>(
                e.message@,
            ),
        },
{
    let blocks = split_blocks(text);
    if blocks.len() == 0 {
        return Err(error("設問ブロックが見つかりませんでした。"));
    }
    let slug_text = slugify(subject);
    let slug = chars_of(slug_text.as_str());
    let ghost bs = blocks_of(text@);
    let mut questions: Vec<Question> = Vec::new();
    let mut idx: usize = 0;
    assert(bs.take(0) == Seq::<Seq<Seq<char>>>::empty());
    assert(question_views(questions@) =~= Seq::<QuestionView>::empty());
    while idx < blocks.len()
        invariant
            idx <= blocks.len(),
            bs == blocks_of(text@),
            string_block_views(blocks@) == bs,
            slug@ == subject_slug(subject@),
            questions_of(bs.take(idx as int), year, subject@, slug@) == Ok::<
                Seq<QuestionView>,
                Seq<char>,
            >(question_views(questions@)),
        decreases blocks.len() - idx,
    {
        assert(bs.take(idx + 1).drop_last() == bs.take(idx as int));
        assert(bs.take(idx + 1).last() == str_views(blocks@[idx as int]@));
        match parse_block(blocks[idx].as_slice()) {
            Err(e) => {
                proof {
                    lemma_questions_error_persists(bs, year, subject@, slug@, idx + 1);
                }
                return Err(e);
            },
            Ok((question_text, choices, answer_index, explanation)) => {
                let q = Question {
                    id: make_id(year, &slug, idx + 1),
                    year,
                    subject: String::from_str(subject),
                    question_text,
                    choices,
                    answer_index,
                    explanation,
                };
                let ghost prev = questions@;
                questions.push(q);
                assert(question_views(questions@) =~= question_views(prev).push(q@));
            },
        }
        idx = idx + 1;
    }
    assert(bs.take(blocks.len() as int) == bs);
    Ok(questions)
}


// ---------------------------------------------------------------------
// Laws
// ---------------------------------------------------------------------

/// A question that can be asked: it has a text, at least two choices, an
/// answer among them and an explanation.
pub open spec fn question_well_formed(q: QuestionView) -> bool {
    &&& q.question_text.len() > 0
    &&& q.choices.len() >= 2
    &&& q.answer_index < q.choices.len()
    &&& q.explanation.len() > 0
}

proof fn lemma_block_result_well_formed(lines: Seq<Seq<char>>)
    ensures
        block_result(lines) matches Ok((q, c, a, e)) ==> {
            &&& q.len() > 0
            &&& c.len() >= 2
            &&& a < c.len()
            &&& e.len() > 0
        },
{
    reveal_strlit("（解説なし）");
}

proof fn lemma_questions_of_well_formed(
    blocks: Seq<Seq<Seq<char>>>,
    year: u32,
    subject: Seq<char>,
    slug: Seq<char>,
)
    ensures
        questions_of(blocks, year, subject, slug) matches Ok(qs) ==> {
            &&& qs.len() == blocks.len()
            &&& forall|i: int|
                0 <= i < qs.len() ==> {
                    &&& question_well_formed(#[trigger] qs[i])
                    &&& qs[i].id == question_id(year, slug, (i + 1) as nat)
                    &&& qs[i].year == year
                    &&& qs[i].subject == subject
                }
        },
    decreases blocks.len(),
{
    if blocks.len() > 0 {
        lemma_questions_of_well_formed(blocks.drop_last(), year, subject, slug);
        lemma_block_result_well_formed(blocks.last());
    }
}

/// Every question that a text gives can be asked: it has a text, at least
/// two choices, an answer among them and an explanation. There is one
/// question per block, numbered from 1 in the order of the blocks, and
/// each carries the year and subject it was parsed for.
pub proof fn lemma_parsed_questions_well_formed(text: Seq<char>, year: u32, subject: Seq<char>)
    ensures
        parse_result(text, year, subject) matches Ok(qs) ==> {
            &&& qs.len() > 0
            &&& qs.len() == blocks_of(text).len()
            &&& forall|i: int|
                0 <= i < qs.len() ==> {
                    &&& question_well_formed(#[trigger] qs[i])
                    &&& qs[i].id == question_id(year, subject_slug(subject), (i + 1) as nat)
                    &&& qs[i].year == year
                    &&& qs[i].subject == subject
                }
        },
{
    lemma_questions_of_well_formed(blocks_of(text), year, subject, subject_slug(subject));
}

/// The ids of the questions of one text are pairwise distinct.
pub proof fn lemma_question_ids_distinct(text: Seq<char>, year: u32, subject: Seq<char>)
    ensures
        parse_result(text, year, subject) matches Ok(qs) ==> forall|i: int, j: int|
            0 <= i < qs.len() && 0 <= j < qs.len() && i != j ==> #[trigger] qs[i].id
                != #[trigger] qs[j].id,
{
    lemma_parsed_questions_well_formed(text, year, subject);
    if let Ok(qs) = parse_result(text, year, subject) {
        assert forall|i: int, j: int|
            0 <= i < qs.len() && 0 <= j < qs.len() && i != j implies #[trigger] qs[i].id
                != #[trigger] qs[j].id by {
            let slug = subject_slug(subject);
            let p = dec(year as nat) + seq!['_'] + slug + seq!['_'];
            let a = dec2((i + 1) as nat);
            let b = dec2((j + 1) as nat);
            assert(qs[i].id == p + a);
            assert(qs[j].id == p + b);
            if qs[i].id == qs[j].id {
                assert((p + a).skip(p.len() as int) == a);
                assert((p + b).skip(p.len() as int) == b);
                lemma_dec2_value((i + 1) as nat);
                lemma_dec2_value((j + 1) as nat);
            }
        }
    }
}

/// The slug of a subject has no doubled underscore and no underscore at
/// either end.
pub proof fn lemma_subject_slug_shape(subject: Seq<char>)
    ensures
        is_slug_shaped(subject_slug(subject)),
{
    let t = trim(subject);
    let m = slug_chars(t, t.map_values(|c: char| char_alphanumeric(c)));
    lemma_collapse_no_double(m);
    lemma_strip_shape(collapse_us(m));
}


/// `blocks` split `lines` into question blocks: together they hold the
/// lines in order, none is empty, every block but the first opens with a
/// question header, and no header stands inside a block.
pub open spec fn blocks_split_lines(blocks: Seq<Seq<Seq<char>>>, lines: Seq<Seq<char>>) -> bool {
    &&& blocks.flatten() == lines
    &&& forall|i: int| 0 <= i < blocks.len() ==> (#[trigger] blocks[i]).len() > 0
    &&& forall|i: int| 0 < i < blocks.len() ==> is_question_header(#[trigger] blocks[i][0])
    &&& forall|i: int, k: int|
        0 <= i < blocks.len() && 0 < k < blocks[i].len() ==> !is_question_header(
            #[trigger] blocks[i][k],
        )
}

proof fn lemma_group_lines_invariant(lines: Seq<Seq<char>>)
    ensures
        ({
            let (bs, cur) = group_lines(lines);
            &&& bs.flatten() + cur == lines
            &&& forall|i: int| 0 <= i < bs.len() ==> (#[trigger] bs[i]).len() > 0
            &&& bs.len() > 0 ==> cur.len() > 0 && is_question_header(cur[0])
            &&& forall|i: int| 0 < i < bs.len() ==> is_question_header(#[trigger] bs[i][0])
            &&& forall|i: int, k: int|
                0 <= i < bs.len() && 0 < k < bs[i].len() ==> !is_question_header(
                    #[trigger] bs[i][k],
                )
            &&& forall|k: int| 0 < k < cur.len() ==> !is_question_header(#[trigger] cur[k])
        }),
    decreases lines.len(),
{
    broadcast use Seq::lemma_flatten_push;

    if lines.len() == 0 {
        let (bs, cur) = group_lines(lines);
        assert(bs.flatten() + cur =~= lines);
    } else {
        lemma_group_lines_invariant(lines.drop_last());
        let (bs, cur) = group_lines(lines.drop_last());
        let l = lines.last();
        let (bs2, cur2) = group_lines(lines);
        assert(lines.drop_last().push(l) == lines);
        if is_question_header(l) && cur.len() > 0 {
            assert(bs2 == bs.push(cur));
            assert(cur2 == seq![l]);
            assert(bs2.flatten() + cur2 =~= (bs.flatten() + cur) + seq![l]);
            assert forall|i: int| 0 < i < bs2.len() implies is_question_header(
                #[trigger] bs2[i][0],
            ) by {
                if i < bs.len() {
                    assert(bs2[i] == bs[i]);
                }
            }
            assert forall|i: int, k: int|
                0 <= i < bs2.len() && 0 < k < bs2[i].len() implies !is_question_header(
                #[trigger] bs2[i][k],
            ) by {
                if i < bs.len() {
                    assert(bs2[i] == bs[i]);
                }
            }
            assert forall|i: int| 0 <= i < bs2.len() implies (#[trigger] bs2[i]).len() > 0 by {
                if i < bs.len() {
                    assert(bs2[i] == bs[i]);
                }
            }
        } else {
            assert(bs2 == bs);
            assert(cur2 == cur.push(l));
            assert(bs2.flatten() + cur2 =~= (bs.flatten() + cur).push(l));
            assert forall|k: int| 0 < k < cur2.len() implies !is_question_header(
                #[trigger] cur2[k],
            ) by {
                if k < cur.len() {
                    assert(cur2[k] == cur[k]);
                }
            }
        }
    }
}

/// The blocks of a text split its trimmed non-blank lines: together they
/// hold those lines in order, none is empty, every block but the first
/// opens with a question header, and no header stands inside a block.
pub proof fn lemma_blocks_split_lines(text: Seq<char>)
    ensures
        blocks_split_lines(blocks_of(text), content_lines(text)),
{
    broadcast use Seq::lemma_flatten_push;

    let lines = content_lines(text);
    lemma_group_lines_invariant(lines);
    let (bs, cur) = group_lines(lines);
    let blocks = blocks_of(text);
    if cur.len() > 0 {
        assert(blocks == bs.push(cur));
        assert(blocks.flatten() == bs.flatten() + cur);
        assert forall|i: int| 0 < i < blocks.len() implies is_question_header(
            #[trigger] blocks[i][0],
        ) by {
            if i < bs.len() {
                assert(blocks[i] == bs[i]);
            }
        }
        assert forall|i: int, k: int|
            0 <= i < blocks.len() && 0 < k < blocks[i].len() implies !is_question_header(
            #[trigger] blocks[i][k],
        ) by {
            if i < bs.len() {
                assert(blocks[i] == bs[i]);
            }
        }
        assert forall|i: int| 0 <= i < blocks.len() implies (#[trigger] blocks[i]).len() > 0 by {
            if i < bs.len() {
                assert(blocks[i] == bs[i]);
            }
        }
    } else {
        assert(bs.flatten() + cur =~= bs.flatten());
    }
}


// ---------------------------------------------------------------------
// Blank lines and blanks at line ends
// ---------------------------------------------------------------------

/// What a text gives depends only on its trimmed non-blank lines.
pub proof fn lemma_parse_depends_on_content_lines(
    t1: Seq<char>,
    t2: Seq<char>,
    year: u32,
    subject: Seq<char>,
)
    requires
        content_lines(t1) == content_lines(t2),
    ensures
        parse_result(t1, year, subject) == parse_result(t2, year, subject),
{
}

proof fn lemma_split_concat(x: Seq<char>, y: Seq<char>)
    ensures
        split_at_newlines(x + seq!['\n'] + y) == (
            text_lines(x) + split_at_newlines(y).0,
            split_at_newlines(y).1,
        ),
    decreases y.len(),
{
    let z = x + seq!['\n'] + y;
    if y.len() == 0 {
        assert(z == x + seq!['\n']);
        assert(z.drop_last() == x);
        assert(text_lines(x) + Seq::<Seq<char>>::empty() == text_lines(x));
    } else {
        lemma_split_concat(x, y.drop_last());
        assert(z.drop_last() == x + seq!['\n'] + y.drop_last());
        assert(z.last() == y.last());
        let (d, c) = split_at_newlines(y.drop_last());
        assert((text_lines(x) + d).push(c) == text_lines(x) + d.push(c));
    }
}

/// The lines of `x`, a line feed and `y` are those of `x` and then those
/// of `y`.
proof fn lemma_text_lines_concat(x: Seq<char>, y: Seq<char>)
    ensures
        text_lines(x + seq!['\n'] + y) == text_lines(x) + text_lines(y),
{
    lemma_split_concat(x, y);
    let (d, c) = split_at_newlines(y);
    assert((text_lines(x) + d).push(c) == text_lines(x) + d.push(c));
}

/// Text without a line feed is one line.
proof fn lemma_text_lines_single(w: Seq<char>)
    requires
        forall|i: int| 0 <= i < w.len() ==> #[trigger] w[i] != '\n',
    ensures
        split_at_newlines(w) == (Seq::<Seq<char>>::empty(), w),
        text_lines(w) == seq![w],
    decreases w.len(),
{
    if w.len() > 0 {
        let v = w.drop_last();
        assert forall|i: int| 0 <= i < v.len() implies #[trigger] v[i] != '\n' by {
            assert(v[i] == w[i]);
        }
        lemma_text_lines_single(v);
        assert(v.push(w.last()) == w);
    }
}

proof fn lemma_nonblank_concat(a: Seq<Seq<char>>, b: Seq<Seq<char>>)
    ensures
        nonblank_lines(a + b) == nonblank_lines(a) + nonblank_lines(b),
    decreases b.len(),
{
    if b.len() == 0 {
        assert(a + b == a);
        assert(nonblank_lines(a) + nonblank_lines(b) == nonblank_lines(a));
    } else {
        lemma_nonblank_concat(a, b.drop_last());
        assert((a + b).drop_last() == a + b.drop_last());
        assert((a + b).last() == b.last());
        let p = nonblank_lines(b.drop_last());
        let t = trim(b.last());
        assert((nonblank_lines(a) + p).push(t) == nonblank_lines(a) + p.push(t));
    }
}

/// A blank line is no content line.
proof fn lemma_nonblank_blank(w: Seq<char>)
    requires
        trim(w).len() == 0,
    ensures
        nonblank_lines(seq![w]) == Seq::<Seq<char>>::empty(),
{
    let one = seq![w];
    assert(one.drop_last() == Seq::<Seq<char>>::empty());
    assert(one.last() == w);
    assert(nonblank_lines(Seq::<Seq<char>>::empty()) == Seq::<Seq<char>>::empty());
    assert(nonblank_lines(one) == nonblank_lines(one.drop_last()));
}

/// Inserting a line of whitespace, at the start of a text, between two of
/// its lines or at its end, changes nothing that the text gives.
pub proof fn lemma_parse_ignores_blank_line(
    x: Seq<char>,
    w: Seq<char>,
    y: Seq<char>,
    year: u32,
    subject: Seq<char>,
)
    requires
        forall|i: int| 0 <= i < w.len() ==> #[trigger] w[i] != '\n',
        trim(w).len() == 0,
    ensures
        parse_result(x + seq!['\n'] + w + seq!['\n'] + y, year, subject) == parse_result(
            x + seq!['\n'] + y,
            year,
            subject,
        ),
        parse_result(w + seq!['\n'] + y, year, subject) == parse_result(y, year, subject),
        parse_result(x + seq!['\n'] + w, year, subject) == parse_result(x, year, subject),
{
    lemma_text_lines_single(w);
    lemma_nonblank_blank(w);
    let e = Seq::<Seq<char>>::empty();
    // In the middle.
    lemma_text_lines_concat(x, w + seq!['\n'] + y);
    lemma_text_lines_concat(w, y);
    lemma_text_lines_concat(x, y);
    assert(x + seq!['\n'] + w + seq!['\n'] + y == x + seq!['\n'] + (w + seq!['\n'] + y));
    lemma_nonblank_concat(seq![w], text_lines(y));
    lemma_nonblank_concat(text_lines(x), seq![w] + text_lines(y));
    lemma_nonblank_concat(text_lines(x), text_lines(y));
    assert(e + nonblank_lines(text_lines(y)) == nonblank_lines(text_lines(y)));
    lemma_parse_depends_on_content_lines(
        x + seq!['\n'] + w + seq!['\n'] + y,
        x + seq!['\n'] + y,
        year,
        subject,
    );
    // At the start.
    lemma_parse_depends_on_content_lines(w + seq!['\n'] + y, y, year, subject);
    // At the end.
    lemma_text_lines_concat(x, w);
    lemma_nonblank_concat(text_lines(x), seq![w]);
    assert(nonblank_lines(text_lines(x)) + e == nonblank_lines(text_lines(x)));
    lemma_parse_depends_on_content_lines(x + seq!['\n'] + w, x, year, subject);
}

proof fn lemma_nonblank_same_trims(a: Seq<Seq<char>>, b: Seq<Seq<char>>)
    requires
        a.len() == b.len(),
        forall|i: int| 0 <= i < a.len() ==> trim(#[trigger] a[i]) == trim(b[i]),
    ensures
        nonblank_lines(a) == nonblank_lines(b),
    decreases a.len(),
{
    if a.len() > 0 {
        assert(trim(a[a.len() - 1]) == trim(b[b.len() - 1]));
        lemma_nonblank_same_trims(a.drop_last(), b.drop_last());
    }
}

/// Whitespace added to or taken from either end of any line changes
/// nothing that the text gives.
pub proof fn lemma_parse_ignores_line_end_blanks(
    t1: Seq<char>,
    t2: Seq<char>,
    year: u32,
    subject: Seq<char>,
)
    requires
        text_lines(t1).len() == text_lines(t2).len(),
        forall|i: int|
            0 <= i < text_lines(t1).len() ==> trim(#[trigger] text_lines(t1)[i]) == trim(
                text_lines(t2)[i],
            ),
    ensures
        parse_result(t1, year, subject) == parse_result(t2, year, subject),
{
    lemma_nonblank_same_trims(text_lines(t1), text_lines(t2));
    lemma_parse_depends_on_content_lines(t1, t2, year, subject);
}


// ---------------------------------------------------------------------
// Laws of line kinds
// ---------------------------------------------------------------------

proof fn lemma_find_first(s: Seq<char>, pat: Seq<char>, i: nat, k: nat)
    requires
        pat.len() > 0,
        i <= k,
        occurs_at(s, pat, k as int),
        forall|j: int| i <= j < k ==> #[trigger] s[j] != pat[0],
    ensures
        find_from(s, pat, i) == Some(k),
    decreases k - i,
{
    if i < k {
        assert(!occurs_at(s, pat, i as int)) by {
            if occurs_at(s, pat, i as int) {
                assert(s.subrange(i as int, (i + pat.len()) as int)[0] == s[i as int]);
            }
        }
        lemma_find_first(s, pat, i + 1, k);
    }
}

proof fn lemma_choice_after_number(head: Seq<char>, x: Seq<char>)
    requires
        head.len() > 0,
        forall|j: int| 0 <= j < head.len() ==> #[trigger] head[j] != '.',
        forall|j: int| 0 <= j < head.len() ==> !white_space_code(#[trigger] head[j] as u32),
        is_choice_number(head),
        trim(x).len() > 0,
    ensures
        choice_text(head + seq!['.', ' '] + x) == Some(trim(x)),
{
    let line = head + seq!['.', ' '] + x;
    let m = seq!['.', ' '];
    let n = head.len();
    assert(line.subrange(n as int, (n + 2) as int) == m);
    assert forall|j: int| 0 <= j < n implies #[trigger] line[j] != m[0] by {
        assert(line[j] == head[j]);
    }
    lemma_find_first(line, m, 0, n);
    assert(line.take(n as int) == head);
    assert(line.skip((n + 2) as int) == x);
    assert forall|j: int| 0 <= j < head.len() implies !is_ws(#[trigger] head[j]) by {
        lemma_is_ws_code_pub(head[j]);
    }
    lemma_trim_no_ws(head);
    assert(choice_markers()[0] == m);
}

/// A line made of one of the full-width digits `１` to `４`, `. ` and a
/// text that is not blank gives that text, trimmed, as a choice.
pub proof fn lemma_full_width_choice(d: char, x: Seq<char>)
    requires
        d == '１' || d == '２' || d == '３' || d == '４',
        trim(x).len() > 0,
    ensures
        choice_text(seq![d, '.', ' '] + x) == Some(trim(x)),
{
    let head = seq![d];
    assert(seq![d, '.', ' '] + x == head + seq!['.', ' '] + x);
    lemma_choice_after_number(head, x);
}

/// A line made of a number in decimal, `. ` and a text that is not blank
/// gives that text, trimmed, as a choice.
pub proof fn lemma_decimal_choice(n: nat, x: Seq<char>)
    requires
        n <= usize::MAX,
        trim(x).len() > 0,
    ensures
        choice_text(dec(n) + seq!['.', ' '] + x) == Some(trim(x)),
{
    lemma_parse_dec(n);
    lemma_dec_value(n);
    let head = dec(n);
    assert forall|j: int| 0 <= j < head.len() implies #[trigger] head[j] != '.' && !white_space_code(
        head[j] as u32,
    ) by {
        assert(is_ascii_digit(head[j]));
    }
    lemma_choice_after_number(head, x);
}

/// A line that starts with one of two prefixes gives the rest, trimmed.
proof fn lemma_strip_pair(p1: Seq<char>, p2: Seq<char>, s: Seq<char>)
    requires
        p1.len() > 0,
        p2.len() > 0,
        p1[0] != p2[0],
    ensures
        strip_first_prefix(p1 + s, seq![p1, p2]) == Some(trim(s)),
        strip_first_prefix(p2 + s, seq![p1, p2]) == Some(trim(s)),
{
    let ps = seq![p1, p2];
    assert(ps[0] == p1 && ps[1] == p2);
    assert((p1 + s).take(p1.len() as int) == p1);
    assert((p1 + s).skip(p1.len() as int) == s);
    assert((p2 + s).take(p2.len() as int) == p2);
    assert((p2 + s).skip(p2.len() as int) == s);
    assert(!starts_with(p2 + s, p1)) by {
        if starts_with(p2 + s, p1) {
            assert((p2 + s).take(p1.len() as int)[0] == (p2 + s)[0]);
        }
    }
    assert(ps.drop_first() == seq![p2]);
    assert(seq![p2][0] == p2);
    assert(strip_first_prefix(p2 + s, seq![p2]) == Some(trim(s)));
    assert(strip_first_prefix(p2 + s, ps) == strip_first_prefix(p2 + s, ps.drop_first()));
}

/// `Q:`, `問題:`, `A:`, `答え:`, `E:` and `解説:` at the start of a line
/// each give the rest of the line, trimmed.
pub proof fn lemma_line_prefixes(s: Seq<char>)
    ensures
        strip_first_prefix(seq!['Q', ':'] + s, question_prefixes()) == Some(trim(s)),
        strip_first_prefix(seq!['問', '題', ':'] + s, question_prefixes()) == Some(trim(s)),
        strip_first_prefix(seq!['A', ':'] + s, answer_prefixes()) == Some(trim(s)),
        strip_first_prefix(seq!['答', 'え', ':'] + s, answer_prefixes()) == Some(trim(s)),
        strip_first_prefix(seq!['E', ':'] + s, explanation_prefixes()) == Some(trim(s)),
        strip_first_prefix(seq!['解', '説', ':'] + s, explanation_prefixes()) == Some(trim(s)),
{
    lemma_strip_pair(seq!['Q', ':'], seq!['問', '題', ':'], s);
    lemma_strip_pair(seq!['A', ':'], seq!['答', 'え', ':'], s);
    lemma_strip_pair(seq!['E', ':'], seq!['解', '説', ':'], s);
}

/// A line `Q: s` or `問題: s` in a block sets the question to `s`,
/// trimmed, and changes nothing else.
pub proof fn lemma_question_line(st: BlockState, s: Seq<char>)
    ensures
        scan_line(st, seq!['Q', ':'] + s) == Ok::<BlockState, Seq<char>>(
            BlockState {
                question: trim(s),
                choices: st.choices,
                answer: st.answer,
                explanation: st.explanation,
            },
        ),
        scan_line(st, seq!['問', '題', ':'] + s) == Ok::<BlockState, Seq<char>>(
            BlockState {
                question: trim(s),
                choices: st.choices,
                answer: st.answer,
                explanation: st.explanation,
            },
        ),
{
    lemma_line_prefixes(s);
}


proof fn lemma_find_none(s: Seq<char>, pat: Seq<char>, i: nat)
    requires
        pat.len() > 0,
        forall|j: int| i <= j < s.len() ==> #[trigger] s[j] != pat[0],
    ensures
        find_from(s, pat, i) is None,
    decreases s.len() - i,
{
    if i < s.len() && i + pat.len() <= s.len() {
        assert(!occurs_at(s, pat, i as int)) by {
            if occurs_at(s, pat, i as int) {
                assert(s.subrange(i as int, (i + pat.len()) as int)[0] == s[i as int]);
            }
        }
        lemma_find_none(s, pat, i + 1);
    }
}

/// A line `A: n` or `答え: n` with a number `n` from 1 makes choice `n`
/// (index `n - 1`) the answer and changes nothing else; with `0` it is an
/// error.
pub proof fn lemma_answer_line(st: BlockState, n: nat)
    requires
        n <= usize::MAX,
    ensures
        scan_line(st, seq!['A', ':', ' '] + dec(n)) == (if n == 0 {
            Err::<BlockState, Seq<char>>(msg_answer_zero())
        } else {
            Ok(
                BlockState {
                    question: st.question,
                    choices: st.choices,
                    answer: Some((n - 1) as nat),
                    explanation: st.explanation,
                },
            )
        }),
        scan_line(st, seq!['答', 'え', ':', ' '] + dec(n)) == scan_line(
            st,
            seq!['A', ':', ' '] + dec(n),
        ),
{
    lemma_dec_value(n);
    lemma_parse_dec(n);
    let d = dec(n);
    let rest = seq![' '] + d;
    assert forall|j: int| 0 <= j < rest.len() implies !white_space_code(#[trigger] rest[j] as u32)
        || j == 0 by {
        if j > 0 {
            assert(rest[j] == d[j - 1]);
            assert(is_ascii_digit(d[j - 1]));
        }
    }
    lemma_trim_white_space_ends(' ', d);
    assert(trim(rest) == d);
    let l1 = seq!['A', ':', ' '] + d;
    let l2 = seq!['答', 'え', ':', ' '] + d;
    assert(l1 == seq!['A', ':'] + rest);
    assert(l2 == seq!['答', 'え', ':'] + rest);
    lemma_line_prefixes(rest);
    // Neither line starts with a question prefix.
    let qp = question_prefixes();
    assert(qp[0] == seq!['Q', ':'] && qp[1] == seq!['問', '題', ':']);
    assert(!starts_with(l1, qp[0]) && !starts_with(l1, qp[1])) by {
        assert(l1[0] == 'A');
        if starts_with(l1, qp[0]) {
            assert(l1.take(2)[0] == l1[0]);
        }
        if starts_with(l1, qp[1]) {
            assert(l1.take(3)[0] == l1[0]);
        }
    }
    assert(!starts_with(l2, qp[0]) && !starts_with(l2, qp[1])) by {
        assert(l2[0] == '答');
        if starts_with(l2, qp[0]) {
            assert(l2.take(2)[0] == l2[0]);
        }
        if starts_with(l2, qp[1]) {
            assert(l2.take(3)[0] == l2[0]);
        }
    }
    assert(qp.drop_first() == seq![seq!['問', '題', ':']]);
    assert(qp.drop_first().drop_first() == Seq::<Seq<char>>::empty());
    let q1 = qp.drop_first();
    assert(q1[0] == qp[1]);
    assert(strip_first_prefix(l1, q1.drop_first()) is None);
    assert(strip_first_prefix(l1, q1) == strip_first_prefix(l1, q1.drop_first()));
    assert(strip_first_prefix(l1, qp) == strip_first_prefix(l1, q1));
    assert(strip_first_prefix(l2, q1) == strip_first_prefix(l2, q1.drop_first()));
    assert(strip_first_prefix(l2, qp) == strip_first_prefix(l2, q1));
    // Neither line holds a '.', so neither is a choice.
    let m = choice_markers()[0];
    assert(m == seq!['.', ' ']);
    assert forall|j: int| 0 <= j < l1.len() implies #[trigger] l1[j] != m[0] by {
        if j >= 3 {
            assert(l1[j] == d[j - 3]);
            assert(is_ascii_digit(d[j - 3]));
        }
    }
    assert forall|j: int| 0 <= j < l2.len() implies #[trigger] l2[j] != m[0] by {
        if j >= 4 {
            assert(l2[j] == d[j - 4]);
            assert(is_ascii_digit(d[j - 4]));
        }
    }
    lemma_find_none(l1, m, 0);
    lemma_find_none(l2, m, 0);
    assert(choice_text(l1) is None);
    assert(choice_text(l2) is None);
}

} // verus!
