//! Reading the text of an equation into its elements.

use vstd::prelude::*;
use vstd::string::StrSliceExecFns;
use crate::equation::elements_wf;
use crate::equation_element::{
    AdditiveOperationType, EquationElement, MultiplicativeOperationType, OperationType,
    SymbolType, ValueType,
};
use crate::equation_error::{EquationError, Problem};
use crate::decimal::{decimal, is_digit, parse_decimal};
use crate::number::{e, pi, Real};
use crate::text::{characters, string_of};

verus! {

/// The text of an equation and the name of its variable.
pub struct EquationInput {
    equation: String,
    pub variable_name: String,
}

/// What has been read of a text: the elements so far, the characters of the
/// value that is being read, and whether that value is a number.
pub struct Scan {
    pub elements: Seq<EquationElement>,
    pub buffer: Seq<char>,
    pub number: bool,
}

/// The element that a character spells by itself.
pub open spec fn element_of(c: char) -> Option<EquationElement> {
    if c == '+' {
        Some(
            EquationElement::Operation(
                OperationType::AdditiveOperation(AdditiveOperationType::Addition),
            ),
        )
    } else if c == '-' {
        Some(
            EquationElement::Operation(
                OperationType::AdditiveOperation(AdditiveOperationType::Subtraction),
            ),
        )
    } else if c == '*' {
        Some(
            EquationElement::Operation(
                OperationType::MultiplicativeOperation(MultiplicativeOperationType::Multiplication),
            ),
        )
    } else if c == '/' {
        Some(
            EquationElement::Operation(
                OperationType::MultiplicativeOperation(MultiplicativeOperationType::Division),
            ),
        )
    } else if c == '=' {
        Some(EquationElement::Separator)
    } else if c == '(' {
        Some(EquationElement::OpeningParenthesis)
    } else if c == ')' {
        Some(EquationElement::ClosingParenthesis)
    } else if c == 'π' {
        Some(EquationElement::Value(ValueType::Symbol(SymbolType::Constant(pi()))))
    } else {
        None
    }
}

/// The value that a run of characters spells: the imaginary unit is
/// refused; then come the variable, the constants `pi` and `e`, and the
/// numbers in decimal notation.
pub open spec fn value_of(text: Seq<char>, variable_name: Seq<char>) -> Result<ValueType, Problem> {
    if text == seq!['i'] {
        Err(Problem::Other(EquationError::ComplexNumbers))
    } else if text == variable_name {
        Ok(ValueType::Symbol(SymbolType::Variable))
    } else if text == seq!['p', 'i'] {
        Ok(ValueType::Symbol(SymbolType::Constant(pi())))
    } else if text == seq!['e'] {
        Ok(ValueType::Symbol(SymbolType::Constant(e())))
    } else {
        match decimal(text) {
            Some(number) => Ok(ValueType::Number(number)),
            None => Err(Problem::InvalidElement(text)),
        }
    }
}

impl Scan {
    /// Before the first character.
    pub open spec fn start() -> Scan {
        Scan { elements: Seq::empty(), buffer: Seq::empty(), number: true }
    }

    /// The scan with the value that was being read, if any, among the
    /// elements.
    pub open spec fn flushed(self, variable_name: Seq<char>) -> Result<Scan, Problem> {
        if self.buffer.len() == 0 {
            Ok(self)
        } else {
            match value_of(self.buffer, variable_name) {
                Ok(value) => Ok(
                    Scan {
                        elements: self.elements.push(EquationElement::Value(value)),
                        buffer: Seq::empty(),
                        number: self.number,
                    },
                ),
                Err(problem) => Err(problem),
            }
        }
    }

    /// The scan after the next character. A space ends the value that is
    /// being read; so does a character that is an element by itself; a point
    /// or a comma joins the value as a point; any other character joins the
    /// value, or starts the next one where a digit follows another character
    /// or another character a digit.
    ///
    /// A text in UTF-8 that was read as Windows-1252 shows `π` as the two
    /// characters `Ï€`. They are taken for `π` where they stand by
    /// themselves.
    pub open spec fn step(self, c: char, variable_name: Seq<char>) -> Result<Scan, Problem> {
        if c == ' ' {
            match self.flushed(variable_name) {
                Ok(scan) => Ok(Scan { elements: scan.elements, buffer: scan.buffer, number: true }),
                Err(problem) => Err(problem),
            }
        } else if element_of(c) is Some {
            match self.flushed(variable_name) {
                Ok(scan) => Ok(
                    Scan {
                        elements: scan.elements.push(element_of(c)->0),
                        buffer: scan.buffer,
                        number: true,
                    },
                ),
                Err(problem) => Err(problem),
            }
        } else if c == '.' || c == ',' {
            Ok(Scan { elements: self.elements, buffer: self.buffer.push('.'), number: self.number })
        } else if c == '€' && self.buffer == seq!['Ï'] {
            Ok(
                Scan {
                    elements: self.elements.push(element_of('π')->0),
                    buffer: Seq::empty(),
                    number: true,
                },
            )
        } else if self.buffer.len() > 0 && self.number != is_digit(c) {
            match self.flushed(variable_name) {
                Ok(scan) => Ok(
                    Scan {
                        elements: scan.elements,
                        buffer: scan.buffer.push(c),
                        number: is_digit(c),
                    },
                ),
                Err(problem) => Err(problem),
            }
        } else {
            Ok(Scan { elements: self.elements, buffer: self.buffer.push(c), number: is_digit(c) })
        }
    }

    /// The scan after the characters of a text.
    pub open spec fn run(self, text: Seq<char>, variable_name: Seq<char>) -> Result<Scan, Problem>
        decreases text.len(),
    {
        if text.len() == 0 {
            Ok(self)
        } else {
            match self.run(text.drop_last(), variable_name) {
                Ok(scan) => scan.step(text.last(), variable_name),
                Err(problem) => Err(problem),
            }
        }
    }
}

/// The elements that the text of an equation spells. Neither the text nor
/// the name of the variable may be empty.
pub open spec fn tokens_of(equation: Seq<char>, variable_name: Seq<char>) -> Result<
    Seq<EquationElement>,
    Problem,
> {
    if equation.len() == 0 {
        Err(Problem::Other(EquationError::EmptyEquation))
    } else if variable_name.len() == 0 {
        Err(Problem::Other(EquationError::EmptyVariableName))
    } else {
        match Scan::start().run(equation, variable_name) {
            Ok(scan) => match scan.flushed(variable_name) {
                Ok(last) => Ok(last.elements),
                Err(problem) => Err(problem),
            },
            Err(problem) => Err(problem),
        }
    }
}

/// Once a value is refused, the text spells no elements.
pub proof fn lemma_scan_fails(text: Seq<char>, variable_name: Seq<char>, n: int)
    requires
        0 <= n <= text.len(),
        Scan::start().run(text.take(n), variable_name) is Err,
    ensures
        Scan::start().run(text, variable_name) == Scan::start().run(text.take(n), variable_name),
    decreases text.len() - n,
{
    if n < text.len() {
        assert(text.take(n + 1).drop_last() == text.take(n));
        lemma_scan_fails(text, variable_name, n + 1);
    } else {
        assert(text.take(n) == text);
    }
}

/// Whether the characters are those of the text.
fn spells(value: &Vec<char>, text: &str) -> (r: bool)
    ensures
        r == (value@ == text@),
{
    let other: Vec<char> = characters(text);
    if value.len() != other.len() {
        return false;
    }
    let mut i: usize = 0;
    while i < value.len()
        invariant
            i <= value.len(),
            value.len() == other.len(),
            other@ == text@,
            forall|j: int| 0 <= j < i ==> value@[j] == other@[j],
        decreases value.len() - i,
    {
        if value[i] != other[i] {
            return false;
        }
        i = i + 1;
    }
    assert(value@ =~= other@);
    true
}

/// The value that the characters spell.
pub fn classify(value: &Vec<char>, variable_name: &str) -> (r: Result<ValueType, EquationError>)
    ensures
        match value_of(value@, variable_name@) {
            Ok(v) => r is Ok && r->Ok_0 == v && v.wf(),
            Err(problem) => r is Err && r->Err_0.reports(problem),
        },
{
    if value.len() == 1 && value[0] == 'i' {
        assert(value@ =~= seq!['i']);
        return Err(EquationError::ComplexNumbers);
    }
    if spells(value, variable_name) {
        return Ok(ValueType::Symbol(SymbolType::Variable));
    }
    if value.len() == 2 && value[0] == 'p' && value[1] == 'i' {
        assert(value@ =~= seq!['p', 'i']);
        return Ok(ValueType::Symbol(SymbolType::Constant(Real::pi())));
    }
    if value.len() == 1 && value[0] == 'e' {
        assert(value@ =~= seq!['e']);
        return Ok(ValueType::Symbol(SymbolType::Constant(Real::e())));
    }
    assert(value@ != seq!['i']) by {
        if value@.len() == 1 {
            assert(seq!['i'][0] == 'i');
        }
    }
    assert(value@ != seq!['p', 'i']) by {
        if value@.len() == 2 {
            assert(seq!['p', 'i'][0] == 'p' && seq!['p', 'i'][1] == 'i');
        }
    }
    assert(value@ != seq!['e']) by {
        if value@.len() == 1 {
            assert(seq!['e'][0] == 'e');
        }
    }
    match parse_decimal(value) {
        Some(number) => Ok(ValueType::Number(number)),
        None => Err(EquationError::InvalidElement(string_of(value))),
    }
}

/// Puts the value that was being read, if any, among the elements.
fn add_value_to_elements(
    elements: &mut Vec<EquationElement>,
    value: &mut Vec<char>,
    variable_name: &str,
    Ghost(number): Ghost<bool>,
) -> (r: Result<(), EquationError>)
    requires
        elements_wf(old(elements)@),
    ensures
        match (Scan { elements: old(elements)@, buffer: old(value)@, number }).flushed(
            variable_name@,
        ) {
            Ok(scan) => r is Ok && final(elements)@ == scan.elements && final(value)@
                == scan.buffer,
            Err(problem) => r is Err && r->Err_0.reports(problem),
        },
        elements_wf(final(elements)@),
{
    if value.len() == 0 {
        assert(value@ =~= Seq::<char>::empty());
        return Ok(());
    }
    match classify(value, variable_name) {
        Ok(element) => {
            elements.push(EquationElement::Value(element));
            value.clear();
            Ok(())
        },
        Err(error) => Err(error),
    }
}

/// The element that a character spells by itself.
fn element(c: char) -> (r: Option<EquationElement>)
    ensures
        r == element_of(c),
        r is Some ==> r->0.wf(),
{
    if c == '+' {
        Some(
            EquationElement::Operation(
                OperationType::AdditiveOperation(AdditiveOperationType::Addition),
            ),
        )
    } else if c == '-' {
        Some(
            EquationElement::Operation(
                OperationType::AdditiveOperation(AdditiveOperationType::Subtraction),
            ),
        )
    } else if c == '*' {
        Some(
            EquationElement::Operation(
                OperationType::MultiplicativeOperation(MultiplicativeOperationType::Multiplication),
            ),
        )
    } else if c == '/' {
        Some(
            EquationElement::Operation(
                OperationType::MultiplicativeOperation(MultiplicativeOperationType::Division),
            ),
        )
    } else if c == '=' {
        Some(EquationElement::Separator)
    } else if c == '(' {
        Some(EquationElement::OpeningParenthesis)
    } else if c == ')' {
        Some(EquationElement::ClosingParenthesis)
    } else if c == 'π' {
        Some(EquationElement::Value(ValueType::Symbol(SymbolType::Constant(Real::pi()))))
    } else {
        None
    }
}

impl EquationInput {
    /// The text of the equation.
    pub closed spec fn text(self) -> Seq<char> {
        self.equation@
    }

    /// The name of the variable.
    pub closed spec fn name(self) -> Seq<char> {
        self.variable_name@
    }

    /// The input with the given text and name.
    pub fn new(equation: String, variable_name: String) -> (r: EquationInput)
        ensures
            r.text() == equation@,
            r.name() == variable_name@,
    {
        Self { equation, variable_name }
    }

    /// Reads the text of the equation into its elements.
    pub fn token_stream(&self) -> (r: Result<Vec<EquationElement>, EquationError>)
        ensures
            match tokens_of(self.text(), self.name()) {
                Ok(elements) => r is Ok && r->Ok_0@ == elements && elements_wf(elements),
                Err(problem) => r is Err && r->Err_0.reports(problem),
            },
    {
        let equation: Vec<char> = characters(self.equation.as_str());
        let variable_name: &str = self.variable_name.as_str();
        let length: usize = equation.len();
        if length == 0 {
            return Err(EquationError::EmptyEquation);
        }
        if variable_name.unicode_len() == 0 {
            return Err(EquationError::EmptyVariableName);
        }
        let mut elements: Vec<EquationElement> = Vec::new();
        let mut current_value: Vec<char> = Vec::new();
        let mut number: bool = true;
        let mut i: usize = 0;
        while i < length
            invariant
                i <= length,
                length == equation@.len(),
                length > 0,
                equation@ == self.text(),
                variable_name@ == self.name(),
                variable_name@.len() > 0,
                elements_wf(elements@),
                Scan::start().run(equation@.take(i as int), variable_name@) == Ok::<Scan, Problem>(
                    Scan { elements: elements@, buffer: current_value@, number },
                ),
            decreases length - i,
        {
            let c: char = equation[i];
            let ghost before = Scan { elements: elements@, buffer: current_value@, number };
            proof {
                assert(equation@.take(i + 1).drop_last() == equation@.take(i as int));
                assert(Scan::start().run(equation@.take(i + 1), variable_name@) == before.step(
                    c,
                    variable_name@,
                ));
            }
            let single: Option<EquationElement> = element(c);
            let digit: bool = c >= '0' && c <= '9';
            let outcome: Result<(), EquationError> = if c == ' ' {
                number = true;
                add_value_to_elements(
                    &mut elements,
                    &mut current_value,
                    variable_name,
                    Ghost(before.number),
                )
            } else if single.is_some() {
                match add_value_to_elements(
                    &mut elements,
                    &mut current_value,
                    variable_name,
                    Ghost(before.number),
                ) {
                    Ok(()) => {
                        number = true;
                        elements.push(single.unwrap());
                        Ok(())
                    },
                    Err(error) => Err(error),
                }
            } else if c == '.' || c == ',' {
                current_value.push('.');
                Ok(())
            } else if c == '€' && current_value.len() == 1 && current_value[0] == 'Ï' {
                assert(current_value@ =~= seq!['Ï']);
                current_value.clear();
                number = true;
                elements.push(
                    EquationElement::Value(ValueType::Symbol(SymbolType::Constant(Real::pi()))),
                );
                Ok(())
            } else {
                assert(c == '€' ==> current_value@ != seq!['Ï']) by {
                    if current_value@.len() == 1 {
                        assert(seq!['Ï'][0] == 'Ï');
                    }
                }
                let flushed: Result<(), EquationError> = if current_value.len() > 0 && number
                    != digit {
                    add_value_to_elements(
                        &mut elements,
                        &mut current_value,
                        variable_name,
                        Ghost(before.number),
                    )
                } else {
                    Ok(())
                };
                match flushed {
                    Ok(()) => {
                        number = digit;
                        current_value.push(c);
                        Ok(())
                    },
                    Err(error) => Err(error),
                }
            };
            match outcome {
                Ok(()) => {},
                Err(error) => {
                    proof {
                        lemma_scan_fails(equation@, variable_name@, i + 1);
                    }
                    return Err(error);
                },
            }
            i = i + 1;
        }
        assert(equation@.take(i as int) == equation@);
        match add_value_to_elements(
            &mut elements,
            &mut current_value,
            variable_name,
            Ghost(number),
        ) {
            Ok(()) => Ok(elements),
            Err(error) => Err(error),
        }
    }
}

} // verus!
