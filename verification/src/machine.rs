//! The mathematical model of the question parser: line classification,
//! the per-line transition, and the fold over a sequence of lines.

use vstd::prelude::*;

use crate::text::normalize;
use crate::text::trim_spaces;

verus! {

/// A decimal digit character.
pub open spec fn is_digit(c: char) -> bool {
    48 <= c as u32 && c as u32 <= 57
}

/// First index at or after `i` holding a non-digit character (or the
/// length of `s` if digits run to the end).
pub open spec fn digit_run_end(s: Seq<char>, i: int) -> int
    decreases s.len() - i,
{
    if i < s.len() && is_digit(s[i]) {
        digit_run_end(s, i + 1)
    } else {
        i
    }
}

/// A question-start marker: one or more digits followed by a period.
pub open spec fn is_question_start(s: Seq<char>) -> bool {
    let k = digit_run_end(s, 0);
    1 <= k && k < s.len() && s[k] == '.'
}

/// A choice label: one of the letters `A` through `D`.
pub open spec fn is_choice_label(c: char) -> bool {
    c == 'A' || c == 'B' || c == 'C' || c == 'D'
}

/// A choice marker: a label letter followed immediately by a period.
pub open spec fn is_choice_start(s: Seq<char>) -> bool {
    s.len() >= 2 && is_choice_label(s[0]) && s[1] == '.'
}

/// The character for one decimal digit value.
pub open spec fn digit_char(d: int) -> char {
    if d == 0 {
        '0'
    } else if d == 1 {
        '1'
    } else if d == 2 {
        '2'
    } else if d == 3 {
        '3'
    } else if d == 4 {
        '4'
    } else if d == 5 {
        '5'
    } else if d == 6 {
        '6'
    } else if d == 7 {
        '7'
    } else {
        if d == 8 {
            '8'
        } else {
            '9'
        }
    }
}

/// The decimal representation of a positive number.
pub open spec fn decimal_digits(n: int) -> Seq<char>
    recommends
        n >= 1,
    decreases n,
{
    if n < 10 {
        seq![digit_char(n)]
    } else {
        decimal_digits(n / 10).push(digit_char(n % 10))
    }
}

/// The model of one question record.
#[verifier::ext_equal]
pub struct QuestionModel {
    /// Decimal text of the question's position, assigned in document order.
    pub number: Seq<char>,
    /// All continuation lines of the question, concatenated with no separator.
    pub text: Seq<char>,
    /// The labeled answer choices; keys are only the letters `A` through `D`.
    pub choices: Map<char, Seq<char>>,
    /// Which choice is correct; never populated by the parser.
    pub correct_answer: Option<usize>,
}

/// The parser's fold state.
#[verifier::ext_equal]
pub struct ParserModel {
    /// The question being accumulated, absent before the first marker.
    pub current: Option<QuestionModel>,
    /// The number the next question will receive.
    pub next_number: int,
    /// The finalized questions, in document order.
    pub output: Seq<QuestionModel>,
}

/// A fresh question with the given number text and nothing else.
pub open spec fn empty_question(number: Seq<char>) -> QuestionModel {
    QuestionModel {
        number,
        text: Seq::empty(),
        choices: Map::empty(),
        correct_answer: None,
    }
}

/// The transition on one already-normalized line.
pub open spec fn step(st: ParserModel, cleaned: Seq<char>) -> ParserModel {
    if cleaned.len() == 0 {
        st
    } else if is_question_start(cleaned) {
        ParserModel {
            current: Some(empty_question(decimal_digits(st.next_number))),
            next_number: st.next_number + 1,
            output: match st.current {
                Some(q) => st.output.push(q),
                None => st.output,
            },
        }
    } else {
        match st.current {
            None => st,
            Some(q) => {
                if is_choice_start(cleaned) {
                    ParserModel {
                        current: Some(
                            QuestionModel {
                                choices: q.choices.insert(
                                    cleaned[0],
                                    trim_spaces(cleaned.subrange(2, cleaned.len() as int)),
                                ),
                                ..q
                            },
                        ),
                        ..st
                    }
                } else {
                    ParserModel { current: Some(QuestionModel { text: q.text + cleaned, ..q }), ..st }
                }
            },
        }
    }
}

/// The transition on one raw line: normalize, then step.
pub open spec fn step_line(st: ParserModel, raw: Seq<char>) -> ParserModel {
    step(st, normalize(raw))
}

/// The fold of the transition over a sequence of raw lines.
pub open spec fn run(st: ParserModel, lines: Seq<Seq<char>>) -> ParserModel
    decreases lines.len(),
{
    if lines.len() == 0 {
        st
    } else {
        run(step_line(st, lines[0]), lines.drop_first())
    }
}

/// The state before any line, numbering from `start`.
pub open spec fn init_state(start: int) -> ParserModel {
    ParserModel { current: None, next_number: start, output: Seq::empty() }
}

/// End of input: the question still in progress, if any, is finalized.
pub open spec fn finish(st: ParserModel) -> Seq<QuestionModel> {
    match st.current {
        Some(q) => st.output.push(q),
        None => st.output,
    }
}

/// The questions parsed from `lines`, numbering from `start`.
pub open spec fn parse_model(lines: Seq<Seq<char>>, start: int) -> Seq<QuestionModel> {
    finish(run(init_state(start), lines))
}

pub proof fn lemma_run_push(st: ParserModel, lines: Seq<Seq<char>>, l: Seq<char>)
    ensures
        run(st, lines.push(l)) == step_line(run(st, lines), l),
    decreases lines.len(),
{
    reveal_with_fuel(run, 3);
    if lines.len() == 0 {
        assert(lines.push(l)[0] == l);
        assert(lines.push(l).drop_first() =~= Seq::<Seq<char>>::empty());
    } else {
        assert(lines.push(l)[0] == lines[0]);
        assert(lines.push(l).drop_first() =~= lines.drop_first().push(l));
        lemma_run_push(step_line(st, lines[0]), lines.drop_first(), l);
    }
}

/// How many lines of `lines` are question-start markers once normalized.
pub open spec fn count_question_starts(lines: Seq<Seq<char>>) -> int
    decreases lines.len(),
{
    if lines.len() == 0 {
        0
    } else {
        (if is_question_start(normalize(lines[0])) {
            1int
        } else {
            0int
        }) + count_question_starts(lines.drop_first())
    }
}

/// Finalized questions plus the one still in progress, if any.
pub open spec fn pending_count(st: ParserModel) -> int {
    st.output.len() + (if st.current is Some {
        1int
    } else {
        0int
    })
}

pub proof fn lemma_run_counts(st: ParserModel, lines: Seq<Seq<char>>)
    ensures
        pending_count(run(st, lines)) == pending_count(st) + count_question_starts(lines),
        run(st, lines).next_number == st.next_number + count_question_starts(lines),
    decreases lines.len(),
{
    if lines.len() > 0 {
        lemma_run_counts(step_line(st, lines[0]), lines.drop_first());
    }
}

pub proof fn lemma_count_starts_bound(lines: Seq<Seq<char>>)
    ensures
        0 <= count_question_starts(lines) <= lines.len(),
    decreases lines.len(),
{
    if lines.len() > 0 {
        lemma_count_starts_bound(lines.drop_first());
    }
}

/// Law: the number of finalized questions equals the number of lines
/// that, once normalized, match the question-start pattern — none lost,
/// none duplicated.
pub proof fn lemma_question_count(lines: Seq<Seq<char>>, start: int)
    ensures
        parse_model(lines, start).len() == count_question_starts(lines),
{
    lemma_run_counts(init_state(start), lines);
}

/// The numbering invariant the fold maintains.
pub open spec fn well_numbered(st: ParserModel, start: int) -> bool {
    &&& st.next_number == start + pending_count(st)
    &&& (st.current is Some ==> st.current.unwrap().number == decimal_digits(
        start + st.output.len(),
    ))
    &&& forall|i: int|
        0 <= i < st.output.len() ==> (#[trigger] st.output[i]).number == decimal_digits(start + i)
}

pub proof fn lemma_run_numbering(st: ParserModel, lines: Seq<Seq<char>>, start: int)
    requires
        well_numbered(st, start),
    ensures
        well_numbered(run(st, lines), start),
    decreases lines.len(),
{
    if lines.len() > 0 {
        let st2 = step_line(st, lines[0]);
        assert(well_numbered(st2, start));
        lemma_run_numbering(st2, lines.drop_first(), start);
    }
}

pub proof fn lemma_decimal_digits_len(n: int)
    requires
        n >= 1,
    ensures
        decimal_digits(n).len() >= 1,
        n >= 10 ==> decimal_digits(n).len() >= 2,
    decreases n,
{
    if n >= 10 {
        lemma_decimal_digits_len(n / 10);
    }
}

/// Distinct positive numbers have distinct decimal representations.
pub proof fn lemma_decimal_digits_injective(m: int, n: int)
    requires
        1 <= m,
        1 <= n,
        m != n,
    ensures
        decimal_digits(m) != decimal_digits(n),
    decreases m + n,
{
    let dm = decimal_digits(m);
    let dn = decimal_digits(n);
    if m < 10 && n < 10 {
        assert(dm[0] != dn[0]);
    } else if m < 10 && n >= 10 {
        lemma_decimal_digits_len(n);
    } else if m >= 10 && n < 10 {
        lemma_decimal_digits_len(m);
    } else {
        vstd::arithmetic::div_mod::lemma_fundamental_div_mod(m, 10);
        vstd::arithmetic::div_mod::lemma_fundamental_div_mod(n, 10);
        if m % 10 != n % 10 {
            assert(dm[dm.len() - 1] == digit_char(m % 10));
            assert(dn[dn.len() - 1] == digit_char(n % 10));
            if dm == dn {
                assert(digit_char(m % 10) == digit_char(n % 10));
                assert(false);
            }
        } else {
            assert(m / 10 != n / 10);
            lemma_decimal_digits_injective(m / 10, n / 10);
            if dm == dn {
                assert(dm.drop_last() =~= decimal_digits(m / 10));
                assert(dn.drop_last() =~= decimal_digits(n / 10));
                assert(false);
            }
        }
    }
}

/// Law: question numbers form the contiguous increasing sequence
/// `start, start + 1, ...` in document order (with `start == 1` for a
/// plain invocation), so no two questions share a number.
pub proof fn lemma_question_numbering(lines: Seq<Seq<char>>, start: int)
    requires
        start >= 1,
    ensures
        forall|i: int|
            0 <= i < parse_model(lines, start).len() ==> (#[trigger] parse_model(lines, start)[i]).number
                == decimal_digits(start + i),
        forall|i: int, j: int|
            0 <= i < j < parse_model(lines, start).len() ==> (#[trigger] parse_model(
                lines,
                start,
            )[i]).number != (#[trigger] parse_model(lines, start)[j]).number,
{
    lemma_run_numbering(init_state(start), lines, start);
    let out = parse_model(lines, start);
    assert forall|i: int, j: int| 0 <= i < j < out.len() implies (#[trigger] out[i]).number != (
    #[trigger] out[j]).number by {
        lemma_decimal_digits_injective(start + i, start + j);
    }
}

/// Every question the parser can produce: choice keys only among the
/// labels `A`-`D`, and the correct-answer field unpopulated.
pub open spec fn wf_question(q: QuestionModel) -> bool {
    &&& forall|c: char| q.choices.contains_key(c) ==> is_choice_label(c)
    &&& q.correct_answer is None
}

pub open spec fn wf_state(st: ParserModel) -> bool {
    &&& (st.current is Some ==> wf_question(st.current.unwrap()))
    &&& forall|i: int| 0 <= i < st.output.len() ==> wf_question(#[trigger] st.output[i])
}

pub proof fn lemma_run_wf(st: ParserModel, lines: Seq<Seq<char>>)
    requires
        wf_state(st),
    ensures
        wf_state(run(st, lines)),
    decreases lines.len(),
{
    if lines.len() > 0 {
        let st2 = step_line(st, lines[0]);
        assert(wf_state(st2));
        lemma_run_wf(st2, lines.drop_first());
    }
}

/// Invariant: every parsed question has its choices keyed only by the
/// labels `A`-`D` and carries no correct-answer mark.
pub proof fn lemma_questions_wf(lines: Seq<Seq<char>>, start: int)
    ensures
        forall|i: int|
            0 <= i < parse_model(lines, start).len() ==> wf_question(
                #[trigger] parse_model(lines, start)[i],
            ),
{
    lemma_run_wf(init_state(start), lines);
}

pub proof fn lemma_run_next_bound(st: ParserModel, lines: Seq<Seq<char>>)
    ensures
        st.next_number <= run(st, lines).next_number <= st.next_number + lines.len(),
{
    lemma_run_counts(st, lines);
    lemma_count_starts_bound(lines);
}

/// The value of the last choice-marker line with the given label in
/// `lines`, if any (each line considered after normalization).
pub open spec fn last_choice_value(lines: Seq<Seq<char>>, label: char) -> Option<Seq<char>>
    decreases lines.len(),
{
    if lines.len() == 0 {
        None
    } else {
        let rest = last_choice_value(lines.drop_first(), label);
        if rest is Some {
            rest
        } else {
            let c = normalize(lines[0]);
            if is_choice_start(c) && c[0] == label {
                Some(trim_spaces(c.subrange(2, c.len() as int)))
            } else {
                None
            }
        }
    }
}

/// Law: within one question's span — a run of lines none of which is a
/// question-start marker — the choice entry for a label holds the value
/// of the last choice line with that label; labels never written keep
/// the entry they had at the start of the span.
pub proof fn lemma_last_choice_wins(st: ParserModel, lines: Seq<Seq<char>>, label: char)
    requires
        st.current is Some,
        forall|i: int| 0 <= i < lines.len() ==> !is_question_start(normalize(#[trigger] lines[i])),
    ensures
        run(st, lines).current is Some,
        match last_choice_value(lines, label) {
            Some(v) => {
                let ch = run(st, lines).current.unwrap().choices;
                ch.contains_key(label) && ch[label] == v
            },
            None => {
                let ch0 = st.current.unwrap().choices;
                let ch = run(st, lines).current.unwrap().choices;
                &&& (ch.contains_key(label) <==> ch0.contains_key(label))
                &&& (ch0.contains_key(label) ==> ch[label] == ch0[label])
            },
        },
    decreases lines.len(),
{
    if lines.len() > 0 {
        let st2 = step_line(st, lines[0]);
        assert(!is_question_start(normalize(lines[0])));
        assert(st2.current is Some);
        lemma_last_choice_wins(st2, lines.drop_first(), label);
    }
}

/// Law: lines before the first question-start marker are discarded —
/// parsing behaves as if the input began at the first marker.
pub proof fn lemma_prefix_discarded(lines: Seq<Seq<char>>, k: int, start: int)
    requires
        0 <= k <= lines.len(),
        forall|i: int| 0 <= i < k ==> !is_question_start(normalize(#[trigger] lines[i])),
    ensures
        parse_model(lines, start) == parse_model(lines.skip(k), start),
    decreases k,
{
    if k > 0 {
        assert(step_line(init_state(start), lines[0]) == init_state(start));
        assert(run(init_state(start), lines) == run(init_state(start), lines.drop_first()));
        lemma_prefix_discarded(lines.drop_first(), k - 1, start);
        assert(lines.drop_first().skip(k - 1) =~= lines.skip(k));
    } else {
        assert(lines.skip(0) =~= lines);
    }
}

} // verus!
