//! The executable question parser: a verified fold of the transition
//! from `machine` over a sequence of text lines.

use vstd::prelude::*;

use crate::error::OutputError;
use crate::machine::ParserModel;
use crate::machine::QuestionModel;
use crate::machine::decimal_digits;
use crate::machine::digit_char;
use crate::machine::digit_run_end;
use crate::machine::empty_question;
use crate::machine::init_state;
use crate::machine::is_choice_label;
use crate::machine::is_choice_start;
use crate::machine::is_digit;
use crate::machine::is_question_start;
use crate::machine::lemma_run_next_bound;
use crate::machine::lemma_run_push;
use crate::machine::parse_model;
use crate::machine::run;
use crate::machine::step;
use crate::question::Choices;
use crate::question::Question;
use crate::text::clean_text;

verus! {

/// The views of a sequence of text lines.
pub open spec fn line_views(lines: Seq<String>) -> Seq<Seq<char>> {
    lines.map_values(|l: String| l@)
}

/// The views of a sequence of question records.
pub open spec fn question_views(qs: Seq<Question>) -> Seq<QuestionModel> {
    qs.map_values(|q: Question| q@)
}

/// The view of an in-progress question, if any.
pub open spec fn current_model(c: Option<Question>) -> Option<QuestionModel> {
    match c {
        Some(q) => Some(q@),
        None => None,
    }
}

/// The model state corresponding to the parser's executable state.
pub open spec fn state_of(current: Option<Question>, next: u64, out: Seq<Question>) -> ParserModel {
    ParserModel {
        current: current_model(current),
        next_number: next as int,
        output: question_views(out),
    }
}

fn is_digit_char(c: char) -> (r: bool)
    ensures
        r == is_digit(c),
{
    let u = c as u32;
    48 <= u && u <= 57
}

/// Does the line begin with one or more digits followed by a period?
fn question_start(s: &str, n: usize) -> (r: bool)
    requires
        n == s@.len(),
    ensures
        r == is_question_start(s@),
{
    let mut k: usize = 0;
    while k < n && is_digit_char(s.get_char(k))
        invariant
            n == s@.len(),
            k <= n,
            digit_run_end(s@, 0) == digit_run_end(s@, k as int),
        decreases n - k,
    {
        proof {
            assert(digit_run_end(s@, k as int) == digit_run_end(s@, k + 1));
        }
        k += 1;
    }
    proof {
        assert(digit_run_end(s@, k as int) == k as int);
    }
    k >= 1 && k < n && s.get_char(k) == '.'
}

fn is_choice_label_char(c: char) -> (r: bool)
    ensures
        r == is_choice_label(c),
{
    c == 'A' || c == 'B' || c == 'C' || c == 'D'
}

/// Does the line begin with a label `A`-`D` followed by a period?
fn choice_start(s: &str, n: usize) -> (r: bool)
    requires
        n == s@.len(),
    ensures
        r == is_choice_start(s@),
{
    n >= 2 && is_choice_label_char(s.get_char(0)) && s.get_char(1) == '.'
}

fn digit_str(d: u64) -> (r: &'static str)
    requires
        d < 10,
    ensures
        r@ == seq![digit_char(d as int)],
{
    proof {
        reveal_strlit("0");
        reveal_strlit("1");
        reveal_strlit("2");
        reveal_strlit("3");
        reveal_strlit("4");
        reveal_strlit("5");
        reveal_strlit("6");
        reveal_strlit("7");
        reveal_strlit("8");
        reveal_strlit("9");
        assert("0"@ =~= seq!['0']);
        assert("1"@ =~= seq!['1']);
        assert("2"@ =~= seq!['2']);
        assert("3"@ =~= seq!['3']);
        assert("4"@ =~= seq!['4']);
        assert("5"@ =~= seq!['5']);
        assert("6"@ =~= seq!['6']);
        assert("7"@ =~= seq!['7']);
        assert("8"@ =~= seq!['8']);
        assert("9"@ =~= seq!['9']);
    }
    if d == 0 {
        "0"
    } else if d == 1 {
        "1"
    } else if d == 2 {
        "2"
    } else if d == 3 {
        "3"
    } else if d == 4 {
        "4"
    } else if d == 5 {
        "5"
    } else if d == 6 {
        "6"
    } else if d == 7 {
        "7"
    } else if d == 8 {
        "8"
    } else {
        "9"
    }
}

/// The decimal text of a positive number.
fn number_string(n: u64) -> (r: String)
    requires
        n >= 1,
    ensures
        r@ == decimal_digits(n as int),
    decreases n,
{
    if n < 10 {
        let mut s = String::new();
        s.append(digit_str(n));
        proof {
            assert(s@ =~= decimal_digits(n as int));
        }
        s
    } else {
        let mut s = number_string(n / 10);
        s.append(digit_str(n % 10));
        proof {
            assert(n as int / 10 == (n / 10) as int);
            assert(n as int % 10 == (n % 10) as int);
            assert(s@ =~= decimal_digits(n as int));
        }
        s
    }
}

/// Parses questions from a sequence of raw lines, numbering from
/// `start`. Pure: the result is exactly the model fold over the lines.
/// Every line is normalized first; question-start markers begin a new
/// question (finalizing the previous one), choice markers write a
/// labeled choice, any other non-empty line extends the current
/// question's text, and lines before the first marker are discarded.
pub fn parse_lines_from(lines: &Vec<String>, start: u64) -> (r: Vec<Question>)
    requires
        1 <= start,
        start + lines@.len() <= u64::MAX,
    ensures
        question_views(r@) == parse_model(line_views(lines@), start as int),
{
    let ghost lseq = line_views(lines@);
    let mut output: Vec<Question> = Vec::new();
    let mut current: Option<Question> = None;
    let mut next: u64 = start;
    let mut i: usize = 0;
    proof {
        assert(state_of(current, next, output@) =~= init_state(start as int));
        assert(lseq.take(0) =~= Seq::<Seq<char>>::empty());
    }
    while i < lines.len()
        invariant
            i <= lines@.len(),
            lseq == line_views(lines@),
            1 <= start,
            start + lines@.len() <= u64::MAX,
            start <= next,
            state_of(current, next, output@) == run(init_state(start as int), lseq.take(i as int)),
        decreases lines@.len() - i,
    {
        let ghost st_prev = run(init_state(start as int), lseq.take(i as int));
        let line: &String = &lines[i];
        let cleaned: String = clean_text(line.as_str());
        let m = cleaned.as_str().unicode_len();
        proof {
            lemma_run_push(init_state(start as int), lseq.take(i as int), lseq[i as int]);
            assert(lseq.take(i as int).push(lseq[i as int]) =~= lseq.take(i + 1));
            assert(lseq[i as int] == lines@[i as int]@);
            assert(run(init_state(start as int), lseq.take(i + 1)) == step(st_prev, cleaned@));
        }
        if m == 0 {
            proof {
                assert(step(st_prev, cleaned@) == st_prev);
            }
        } else if question_start(cleaned.as_str(), m) {
            proof {
                lemma_run_next_bound(init_state(start as int), lseq.take(i as int));
                assert(lseq.take(i as int).len() == i as int);
                assert(next < u64::MAX);
            }
            let q = Question {
                number: number_string(next),
                text: String::new(),
                choices: Choices::new(),
                correct_answer: None,
            };
            proof {
                assert(q@ =~= empty_question(decimal_digits(next as int)));
            }
            let prev = current;
            current = Some(q);
            next = next + 1;
            match prev {
                Some(done) => {
                    let ghost out_old = output@;
                    output.push(done);
                    proof {
                        assert(question_views(output@) =~= question_views(out_old).push(done@));
                    }
                },
                None => {},
            }
            proof {
                assert(state_of(current, next, output@) =~= step(st_prev, cleaned@));
            }
        } else {
            let cur = current;
            current = match cur {
                None => {
                    proof {
                        assert(step(st_prev, cleaned@) == st_prev);
                    }
                    None
                },
                Some(mut q) => {
                    let ghost q_old = q@;
                    if choice_start(cleaned.as_str(), m) {
                        let label = cleaned.as_str().get_char(0);
                        let rest = cleaned.as_str().substring_char(2, m);
                        let value = crate::text::trim_str(rest);
                        q.choices.insert(label, value);
                        proof {
                            assert(q@ =~= QuestionModel {
                                choices: q_old.choices.insert(
                                    cleaned@[0],
                                    crate::text::trim_spaces(
                                        cleaned@.subrange(2, cleaned@.len() as int),
                                    ),
                                ),
                                ..q_old
                            });
                        }
                    } else {
                        q.text.append(cleaned.as_str());
                        proof {
                            assert(q@ =~= QuestionModel { text: q_old.text + cleaned@, ..q_old });
                        }
                    }
                    Some(q)
                },
            };
            proof {
                assert(state_of(current, next, output@) =~= step(st_prev, cleaned@));
            }
        }
        i += 1;
    }
    proof {
        assert(lseq.take(lines@.len() as int) =~= lseq);
    }
    match current {
        Some(q) => {
            let ghost out_old = output@;
            output.push(q);
            proof {
                assert(question_views(output@) =~= question_views(out_old).push(q@));
            }
        },
        None => {},
    }
    proof {
        assert(question_views(output@) =~= parse_model(lseq, start as int));
    }
    output
}

/// First index at or after `i` holding a newline (or the length of `s`
/// if none follows).
pub open spec fn line_break_at(s: Seq<char>, i: int) -> int
    decreases s.len() - i,
{
    if i < s.len() && s[i] != '\n' {
        line_break_at(s, i + 1)
    } else {
        i
    }
}

pub proof fn lemma_line_break_at(s: Seq<char>, i: int)
    ensures
        i <= line_break_at(s, i),
        i <= s.len() ==> line_break_at(s, i) <= s.len(),
    decreases s.len() - i,
{
    if i < s.len() && s[i] != '\n' {
        lemma_line_break_at(s, i + 1);
    }
}

/// The lines of `s` from index `i` on, split at newline characters:
/// one piece more than there are newlines, empty pieces kept.
pub open spec fn split_from(s: Seq<char>, i: int) -> Seq<Seq<char>>
    recommends
        0 <= i <= s.len(),
    decreases s.len() - i,
    via split_from_decreases
{
    let e = line_break_at(s, i);
    if e < s.len() {
        seq![s.subrange(i, e)] + split_from(s, e + 1)
    } else {
        seq![s.subrange(i, s.len() as int)]
    }
}

#[via_fn]
proof fn split_from_decreases(s: Seq<char>, i: int) {
    lemma_line_break_at(s, i);
}

/// The lines of the whole text, as `str::split` on newlines yields them.
pub open spec fn split_lines(s: Seq<char>) -> Seq<Seq<char>> {
    split_from(s, 0)
}

pub proof fn lemma_split_from_len(s: Seq<char>, i: int)
    requires
        0 <= i <= s.len(),
    ensures
        1 <= split_from(s, i).len() <= s.len() - i + 1,
    decreases s.len() - i,
{
    lemma_line_break_at(s, i);
    let e = line_break_at(s, i);
    if e < s.len() {
        lemma_split_from_len(s, e + 1);
    }
}

/// Splits a text into its lines at newline characters.
fn split_lines_str(s: &str) -> (r: Vec<String>)
    ensures
        line_views(r@) == split_lines(s@),
{
    let n = s.unicode_len();
    let mut res: Vec<String> = Vec::new();
    let mut begin: usize = 0;
    let mut i: usize = 0;
    while i < n
        invariant
            n == s@.len(),
            begin <= i <= n,
            line_break_at(s@, begin as int) == line_break_at(s@, i as int),
            split_from(s@, 0) == line_views(res@) + split_from(s@, begin as int),
        decreases n - i,
    {
        if s.get_char(i) == '\n' {
            proof {
                assert(line_break_at(s@, i as int) == i as int);
                assert(split_from(s@, begin as int) == seq![s@.subrange(begin as int, i as int)]
                    + split_from(s@, i + 1));
            }
            let piece = s.substring_char(begin, i);
            let ghost res_old = res@;
            res.push(String::from_str(piece));
            proof {
                assert(line_views(res@) =~= line_views(res_old).push(piece@));
                assert(line_views(res@) + split_from(s@, i + 1) =~= line_views(res_old)
                    + split_from(s@, begin as int));
            }
            begin = i + 1;
            i = i + 1;
        } else {
            proof {
                assert(line_break_at(s@, i as int) == line_break_at(s@, i + 1));
            }
            i = i + 1;
        }
    }
    proof {
        assert(line_break_at(s@, i as int) == i as int);
        assert(split_from(s@, begin as int) =~= seq![s@.subrange(begin as int, n as int)]);
    }
    let piece = s.substring_char(begin, n);
    let ghost res_old = res@;
    res.push(String::from_str(piece));
    proof {
        assert(line_views(res@) =~= line_views(res_old).push(piece@));
        assert(line_views(res@) =~= split_from(s@, 0));
    }
    res
}

/// Parses the questions out of a whole text block: the text is split at
/// newlines and the lines folded through the parser, numbering from 1.
/// Never fails; malformed text is absorbed by the fallback rules.
pub fn parse_questions(text: &str) -> (r: Vec<Question>)
    requires
        text@.len() + 2 <= u64::MAX,
    ensures
        question_views(r@) == parse_model(split_lines(text@), 1),
{
    let lines = split_lines_str(text);
    proof {
        lemma_split_from_len(text@, 0);
        assert(lines@.len() == line_views(lines@).len());
    }
    parse_lines_from(&lines, 1)
}

/// Parses questions from a sequence of raw lines, numbering from 1.
pub fn parse_lines(lines: &Vec<String>) -> (r: Vec<Question>)
    requires
        lines@.len() < u64::MAX,
    ensures
        question_views(r@) == parse_model(line_views(lines@), 1),
{
    parse_lines_from(lines, 1)
}

/// The questions are always structurally valid as parsed; semantic
/// validation is a collaborator's concern, so every sequence passes.
pub fn validate_questions(questions: &[Question]) -> (r: Result<(), OutputError>)
    ensures
        r is Ok,
{
    Ok(())
}

} // verus!
