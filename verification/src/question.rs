//! The question record and its choice mapping.

use vstd::prelude::*;

use crate::machine::QuestionModel;
use crate::machine::is_choice_label;

verus! {

/// The labeled answer choices of one question: a mapping from the
/// labels `A` through `D` to the choice text, at most one entry per
/// label, last write winning.
#[derive(Debug, Clone)]
pub struct Choices {
    /// The entry for label `A`, if any.
    pub a: Option<String>,
    /// The entry for label `B`, if any.
    pub b: Option<String>,
    /// The entry for label `C`, if any.
    pub c: Option<String>,
    /// The entry for label `D`, if any.
    pub d: Option<String>,
}

impl View for Choices {
    type V = Map<char, Seq<char>>;

    open spec fn view(&self) -> Map<char, Seq<char>> {
        let m0 = Map::<char, Seq<char>>::empty();
        let m1 = if self.a is Some {
            m0.insert('A', self.a.unwrap()@)
        } else {
            m0
        };
        let m2 = if self.b is Some {
            m1.insert('B', self.b.unwrap()@)
        } else {
            m1
        };
        let m3 = if self.c is Some {
            m2.insert('C', self.c.unwrap()@)
        } else {
            m2
        };
        if self.d is Some {
            m3.insert('D', self.d.unwrap()@)
        } else {
            m3
        }
    }
}

impl Choices {
    /// An empty mapping.
    pub fn new() -> (r: Choices)
        ensures
            r@ == Map::<char, Seq<char>>::empty(),
    {
        let r = Choices { a: None, b: None, c: None, d: None };
        proof {
            assert(r@ =~= Map::<char, Seq<char>>::empty());
        }
        r
    }

    /// Inserts a choice under its label, overwriting any earlier entry.
    pub fn insert(&mut self, label: char, value: String)
        requires
            is_choice_label(label),
        ensures
            final(self)@ == old(self)@.insert(label, value@),
    {
        if label == 'A' {
            self.a = Some(value);
        } else if label == 'B' {
            self.b = Some(value);
        } else if label == 'C' {
            self.c = Some(value);
        } else {
            self.d = Some(value);
        }
        proof {
            assert(self@ =~= old(self)@.insert(label, value@));
        }
    }

    /// Looks a label up.
    pub fn get(&self, label: char) -> (r: Option<&String>)
        ensures
            match r {
                Some(v) => self@.contains_key(label) && v@ == self@[label],
                None => !self@.contains_key(label),
            },
    {
        if label == 'A' {
            self.a.as_ref()
        } else if label == 'B' {
            self.b.as_ref()
        } else if label == 'C' {
            self.c.as_ref()
        } else if label == 'D' {
            self.d.as_ref()
        } else {
            None
        }
    }

    /// How many labels hold an entry.
    pub fn len(&self) -> (r: usize)
        ensures
            r == self@.dom().len(),
    {
        let mut n: usize = 0;
        if self.a.is_some() {
            n += 1;
        }
        if self.b.is_some() {
            n += 1;
        }
        if self.c.is_some() {
            n += 1;
        }
        if self.d.is_some() {
            n += 1;
        }
        proof {
            lemma_choices_dom_len(*self, n as int);
        }
        n
    }
}

proof fn lemma_choices_dom_len(ch: Choices, n: int)
    requires
        n == (if ch.a is Some {
            1int
        } else {
            0int
        }) + (if ch.b is Some {
            1int
        } else {
            0int
        }) + (if ch.c is Some {
            1int
        } else {
            0int
        }) + (if ch.d is Some {
            1int
        } else {
            0int
        }),
    ensures
        ch@.dom().len() == n,
{
    let m0 = Map::<char, Seq<char>>::empty();
    let m1 = if ch.a is Some {
        m0.insert('A', ch.a.unwrap()@)
    } else {
        m0
    };
    let m2 = if ch.b is Some {
        m1.insert('B', ch.b.unwrap()@)
    } else {
        m1
    };
    let m3 = if ch.c is Some {
        m2.insert('C', ch.c.unwrap()@)
    } else {
        m2
    };
    assert(m0.dom().len() == 0) by {
        assert(m0.dom() =~= Set::<char>::empty());
    }
    if ch.a is Some {
        assert(m1.dom() =~= m0.dom().insert('A'));
    }
    if ch.b is Some {
        assert(m2.dom() =~= m1.dom().insert('B'));
    }
    if ch.c is Some {
        assert(m3.dom() =~= m2.dom().insert('C'));
    }
    if ch.d is Some {
        assert(ch@.dom() =~= m3.dom().insert('D'));
    }
}

/// One extracted question.
#[derive(Debug, Clone)]
pub struct Question {
    /// The question's position in document order, as decimal text.
    pub number: String,
    /// The question body: all continuation lines, concatenated directly.
    pub text: String,
    /// The labeled answer choices.
    pub choices: Choices,
    /// Which choice is correct; deliberately never populated here.
    pub correct_answer: Option<usize>,
}

impl View for Question {
    type V = QuestionModel;

    open spec fn view(&self) -> QuestionModel {
        QuestionModel {
            number: self.number@,
            text: self.text@,
            choices: self.choices@,
            correct_answer: self.correct_answer,
        }
    }
}

} // verus!
