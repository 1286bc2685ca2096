//! The calculator state and the operation behind each class of button.
use vstd::prelude::*;
use crate::number::{
    apply, apply_exact, fraction_text, fraction_to_text, lemma_millionths_text_is_number,
    millionths_text, millionths_to_text, root_millionths, root_millionths_exec, round_millionths,
    Operator,
};
use crate::text::{
    in_range, is_digit, is_number_text, lemma_digit_is_number, lemma_push_keeps_number,
    is_negative_text, lemma_unsigned_reading, parse_decimal, read_operand, shows_negative, Operand, Reading,
};

verus! {

/// The text shown after a division by zero or a square root that has no value.
pub open spec fn error_text() -> Seq<char> {
    seq!['E', 'r', 'r', 'o', 'r']
}

/// The state of the calculator, as a mathematical value.
pub struct Model {
    /// The text shown; also the operand being entered.
    pub display: Seq<char>,
    /// The first operand of a binary operation.
    pub pending_operand: Option<Reading>,
    /// The binary operation waiting for its second operand.
    pub pending_operator: Option<Operator>,
    /// The next digit starts a new number instead of extending the display.
    pub awaiting_new_entry: bool,
}

impl Model {
    /// The state at start and after `clear`.
    pub open spec fn initial() -> Model {
        Model {
            display: seq!['0'],
            pending_operand: None,
            pending_operator: None,
            awaiting_new_entry: false,
        }
    }

    /// The initial state, but showing the error text.
    pub open spec fn error() -> Model {
        Model {
            display: error_text(),
            pending_operand: None,
            pending_operator: None,
            awaiting_new_entry: false,
        }
    }

    /// The display shows a number or the error text, and the pending
    /// operand is one that the display can be read as.
    pub open spec fn wf(self) -> bool {
        &&& is_number_text(self.display) || self.display == error_text()
        &&& match self.pending_operand {
            Some(Reading::Value(m, k)) => in_range((m, k)),
            _ => true,
        }
    }

    /// A digit starts a new number after an operator, in place of a lone
    /// zero and in place of the error text; otherwise it is appended.
    pub open spec fn digit(self, d: char) -> Model {
        if self.awaiting_new_entry || self.display == seq!['0'] || self.display == error_text() {
            Model { display: seq![d], awaiting_new_entry: false, ..self }
        } else {
            Model { display: self.display.push(d), ..self }
        }
    }

    /// A point is appended unless the display has one or shows the error text.
    pub open spec fn decimal_point(self) -> Model {
        if self.display.contains('.') || self.display == error_text() {
            self
        } else {
            Model { display: self.display.push('.'), ..self }
        }
    }

    /// The display becomes the pending operand of `op`; nothing changes
    /// where it shows no number.
    pub open spec fn binary_operator(self, op: Operator) -> Model {
        match read_operand(self.display) {
            Some(v) => Model {
                display: seq!['0'],
                pending_operand: Some(v),
                pending_operator: Some(op),
                awaiting_new_entry: true,
            },
            None => self,
        }
    }

    /// Applies the pending operation to the pending operand and the display.
    /// A division by zero, or an operand beyond the range held, gives the
    /// error state; nothing changes where an operand or the operator is
    /// missing.
    pub open spec fn equals(self) -> Model {
        match (self.pending_operand, self.pending_operator, read_operand(self.display)) {
            (Some(Reading::Value(am, ak)), Some(op), Some(Reading::Value(bm, bk))) => match apply(
                op,
                (am, ak),
                (bm, bk),
            ) {
                Some((num, den)) => Model {
                    display: fraction_text(num, den),
                    pending_operand: None,
                    pending_operator: None,
                    awaiting_new_entry: false,
                },
                None => Model::error(),
            },
            (Some(_), Some(_), Some(_)) => Model::error(),
            _ => self,
        }
    }

    /// Shows the square root of the display, rounded to six places, and
    /// cancels any pending operation; the error state where the display is
    /// not a number, is written below zero, or is beyond the range held.
    pub open spec fn square_root(self) -> Model {
        match read_operand(self.display) {
            Some(Reading::Value(m, k)) => if !is_negative_text(self.display) {
                Model {
                    display: millionths_text(root_millionths(m as nat, k) as int),
                    pending_operand: None,
                    pending_operator: None,
                    awaiting_new_entry: false,
                }
            } else {
                Model::error()
            },
            _ => Model::error(),
        }
    }

    pub open spec fn clear(self) -> Model {
        Model::initial()
    }
}

impl Operator {
    /// The operator written `c`, one of `+ - * /`.
    pub fn from_char(c: char) -> (r: Option<Operator>)
        ensures
            r == if c == '+' {
                Some(Operator::Add)
            } else if c == '-' {
                Some(Operator::Sub)
            } else if c == '*' {
                Some(Operator::Mul)
            } else if c == '/' {
                Some(Operator::Div)
            } else {
                None
            },
    {
        if c == '+' {
            Some(Operator::Add)
        } else if c == '-' {
            Some(Operator::Sub)
        } else if c == '*' {
            Some(Operator::Mul)
        } else if c == '/' {
            Some(Operator::Div)
        } else {
            None
        }
    }
}

/// Relies on String::push: the character is appended to the string.
#[verifier::external_body]
fn push_char(s: &mut String, c: char)
    ensures
        final(s)@ == old(s)@.push(c),
{
    s.push(c)
}

/// The calculator: a display text, a pending operand and operator, and
/// whether the next digit starts a new number.
pub struct CalculatorState {
    display: Vec<char>,
    pending_operand: Option<Operand>,
    pending_operator: Option<Operator>,
    awaiting_new_entry: bool,
}

impl View for CalculatorState {
    type V = Model;

    closed spec fn view(&self) -> Model {
        Model {
            display: self.display@,
            pending_operand: match self.pending_operand {
                Some(o) => Some(o@),
                None => None,
            },
            pending_operator: self.pending_operator,
            awaiting_new_entry: self.awaiting_new_entry,
        }
    }
}

impl CalculatorState {
    pub open spec fn wf(&self) -> bool {
        self@.wf()
    }

    /// The calculator at start: showing `0`, nothing pending.
    pub fn new() -> (r: CalculatorState)
        ensures
            r@ == Model::initial(),
            r.wf(),
    {
        let r = CalculatorState {
            display: vec!['0'],
            pending_operand: None,
            pending_operator: None,
            awaiting_new_entry: false,
        };
        assert(r@.display =~= seq!['0']);
        proof {
            lemma_digit_is_number('0');
        }
        r
    }

    fn shows(&self, t: &Vec<char>) -> (r: bool)
        ensures
            r == (self.display@ == t@),
    {
        if self.display.len() != t.len() {
            return false;
        }
        let mut i: usize = 0;
        while i < t.len()
            invariant
                self.display@.len() == t@.len(),
                i <= t@.len(),
                forall|j: int| 0 <= j < i ==> self.display@[j] == t@[j],
            decreases t.len() - i,
        {
            if self.display[i] != t[i] {
                return false;
            }
            i = i + 1;
        }
        assert(self.display@ =~= t@);
        true
    }

    fn shows_zero(&self) -> (r: bool)
        ensures
            r == (self.display@ == seq!['0']),
    {
        let t = vec!['0'];
        assert(t@ =~= seq!['0']);
        self.shows(&t)
    }

    fn shows_error(&self) -> (r: bool)
        ensures
            r == (self.display@ == error_text()),
    {
        let t = vec!['E', 'r', 'r', 'o', 'r'];
        assert(t@ =~= error_text());
        self.shows(&t)
    }

    fn has_point(&self) -> (r: bool)
        ensures
            r == self.display@.contains('.'),
    {
        let mut i: usize = 0;
        while i < self.display.len()
            invariant
                i <= self.display@.len(),
                forall|j: int| 0 <= j < i ==> self.display@[j] != '.',
            decreases self.display.len() - i,
        {
            if self.display[i] == '.' {
                assert(self.display@[i as int] == '.');
                return true;
            }
            i = i + 1;
        }
        false
    }

    fn set_error(&mut self)
        ensures
            final(self)@ == Model::error(),
    {
        self.display = vec!['E', 'r', 'r', 'o', 'r'];
        self.pending_operand = None;
        self.pending_operator = None;
        self.awaiting_new_entry = false;
        assert(self.display@ =~= error_text());
    }

    /// Presses the digit `d`.
    pub fn digit(&mut self, d: char)
        requires
            old(self).wf(),
            is_digit(d),
        ensures
            final(self).wf(),
            final(self)@ == old(self)@.digit(d),
    {
        if self.awaiting_new_entry || self.shows_zero() || self.shows_error() {
            self.display = vec![d];
            self.awaiting_new_entry = false;
            assert(self.display@ =~= seq![d]);
            proof {
                lemma_digit_is_number(d);
            }
        } else {
            proof {
                lemma_push_keeps_number(self.display@, d);
            }
            self.display.push(d);
        }
    }

    /// Presses the decimal point.
    pub fn decimal_point(&mut self)
        requires
            old(self).wf(),
        ensures
            final(self).wf(),
            final(self)@ == old(self)@.decimal_point(),
    {
        if !self.has_point() && !self.shows_error() {
            proof {
                lemma_push_keeps_number(self.display@, '.');
            }
            self.display.push('.');
        }
    }

    /// Presses the operator `op`.
    pub fn binary_operator(&mut self, op: Operator)
        requires
            old(self).wf(),
        ensures
            final(self).wf(),
            final(self)@ == old(self)@.binary_operator(op),
    {
        if let Some(v) = parse_decimal(&self.display) {
            self.display = vec!['0'];
            self.pending_operand = Some(v);
            self.pending_operator = Some(op);
            self.awaiting_new_entry = true;
            assert(self.display@ =~= seq!['0']);
            proof {
                lemma_digit_is_number('0');
            }
        }
    }

    /// Presses the equals key.
    pub fn equals(&mut self)
        requires
            old(self).wf(),
        ensures
            final(self).wf(),
            final(self)@ == old(self)@.equals(),
    {
        if let (Some(a), Some(op)) = (self.pending_operand, self.pending_operator) {
            if let Some(b) = parse_decimal(&self.display) {
                if let (Operand::Number(a), Operand::Number(b)) = (a, b) {
                    match apply_exact(op, a, b) {
                    Some((num, den)) => {
                        proof {
                            lemma_millionths_text_is_number(round_millionths(num as int, den as int));
                        }
                        self.display = fraction_to_text(num, den);
                        self.pending_operand = None;
                        self.pending_operator = None;
                        self.awaiting_new_entry = false;
                    },
                    None => self.set_error(),
                    }
                } else {
                    self.set_error();
                }
            }
        }
    }

    /// Presses the square root key.
    pub fn square_root(&mut self)
        requires
            old(self).wf(),
        ensures
            final(self).wf(),
            final(self)@ == old(self)@.square_root(),
    {
        match parse_decimal(&self.display) {
            Some(Operand::Number(v)) => {
                if !shows_negative(&self.display) {
                    proof {
                        lemma_unsigned_reading(self.display@);
                    }
                    let n = root_millionths_exec(v.mantissa as u64, v.scale);
                    proof {
                        lemma_millionths_text_is_number(n as int);
                    }
                    self.display = millionths_to_text(n as i128);
                    self.pending_operand = None;
                    self.pending_operator = None;
                    self.awaiting_new_entry = false;
                } else {
                    self.set_error();
                }
            },
            _ => self.set_error(),
        }
    }

    /// The text shown.
    pub fn display(&self) -> (s: String)
        ensures
            s@ == self@.display,
    {
        let mut s = String::new();
        let mut i: usize = 0;
        while i < self.display.len()
            invariant
                i <= self.display@.len(),
                s@ == self.display@.subrange(0, i as int),
            decreases self.display.len() - i,
        {
            push_char(&mut s, self.display[i]);
            i = i + 1;
            assert(s@ =~= self.display@.subrange(0, i as int));
        }
        assert(self.display@.subrange(0, i as int) =~= self.display@);
        s
    }

    /// The pending operand, if any.
    pub fn pending_operand(&self) -> (r: Option<Operand>)
        ensures
            r matches Some(o) ==> self@.pending_operand == Some(o@),
            r is None ==> self@.pending_operand is None,
    {
        self.pending_operand
    }

    /// The pending operator, if any.
    pub fn pending_operator(&self) -> (r: Option<Operator>)
        ensures
            r == self@.pending_operator,
    {
        self.pending_operator
    }

    /// Whether the next digit starts a new number.
    pub fn awaiting_new_entry(&self) -> (r: bool)
        ensures
            r == self@.awaiting_new_entry,
    {
        self.awaiting_new_entry
    }

    /// Presses the clear key: back to the state at start.
    pub fn clear(&mut self)
        ensures
            final(self).wf(),
            final(self)@ == old(self)@.clear(),
    {
        *self = CalculatorState::new();
    }
}

impl Default for CalculatorState {
    fn default() -> (r: CalculatorState)
        ensures
            r@ == Model::initial(),
    {
        CalculatorState::new()
    }
}

} // verus!
