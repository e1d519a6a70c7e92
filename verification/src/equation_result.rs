//! What solving an equation gives.

use vstd::prelude::*;
use vstd::string::StringExecFns;
use crate::number::{all_wf, descending, strictly_descending, Real};

verus! {

/// The solutions of an equation: finitely many numbers, none, or every
/// number but the listed ones. The lists are in descending order.
#[derive(PartialEq, Debug)]
pub enum EquationResult {
    Solutions(Vec<Real>),
    Unsolvable,
    InfiniteSolutions { exceptions: Vec<Real> },
}

/// The zeroes of a polynomial before they are put in order: the numbers
/// found, each as often as it was found; none; or every number but those
/// of a set.
pub enum Zeroes {
    Solutions(Seq<Real>),
    Unsolvable,
    InfiniteSolutions(Set<Real>),
}

/// The texts one after the other, with a comma and a space between them.
pub open spec fn joined(texts: Seq<Seq<char>>) -> Seq<char>
    decreases texts.len(),
{
    if texts.len() == 0 {
        Seq::empty()
    } else if texts.len() == 1 {
        texts[0]
    } else {
        joined(texts.drop_last()) + ", "@ + texts.last()
    }
}

/// What the strings hold.
pub open spec fn views(texts: Seq<String>) -> Seq<Seq<char>> {
    texts.map_values(|text: String| text@)
}

impl EquationResult {
    /// The numbers are well formed.
    pub open spec fn wf(self) -> bool {
        match self {
            EquationResult::Solutions(list) => all_wf(list@),
            EquationResult::Unsolvable => true,
            EquationResult::InfiniteSolutions { exceptions } => all_wf(exceptions@),
        }
    }

    /// Whether the result lists the zeroes in descending order.
    pub open spec fn lists(self, zeroes: Zeroes) -> bool {
        match zeroes {
            Zeroes::Solutions(numbers) => self matches EquationResult::Solutions(list)
                && descending(list@) && list@.to_multiset() == numbers.to_multiset(),
            Zeroes::Unsolvable => self is Unsolvable,
            Zeroes::InfiniteSolutions(numbers) => self matches EquationResult::InfiniteSolutions {
                exceptions,
            } && strictly_descending(exceptions@) && exceptions@.to_set() == numbers,
        }
    }

    /// The result as a set, where its numbers are written as the given
    /// texts: one solution stands alone, more or none stand between braces,
    /// and the set of all real numbers is `R`, followed by what is taken
    /// out of it.
    pub open spec fn written(self, numbers: Seq<Seq<char>>) -> Seq<char> {
        match self {
            EquationResult::Solutions(_) => if numbers.len() == 1 {
                numbers[0]
            } else {
                "{"@ + joined(numbers) + "}"@
            },
            EquationResult::Unsolvable => "{}"@,
            EquationResult::InfiniteSolutions { .. } => if numbers.len() == 0 {
                "R"@
            } else {
                "R\\{"@ + joined(numbers) + "}"@
            },
        }
    }

    /// Writes the result as a set, with the given texts for its numbers.
    pub fn to_text(&self, numbers: &Vec<String>) -> (text: String)
        ensures
            text@ == self.written(views(numbers@)),
    {
        match self {
            EquationResult::Solutions(_) => {
                if numbers.len() == 1 {
                    numbers[0].clone()
                } else {
                    let mut text: String = String::from_str("{");
                    text.append(join(numbers).as_str());
                    text.append("}");
                    text
                }
            },
            EquationResult::Unsolvable => String::from_str("{}"),
            EquationResult::InfiniteSolutions { .. } => {
                if numbers.len() == 0 {
                    String::from_str("R")
                } else {
                    let mut text: String = String::from_str("R\\{");
                    text.append(join(numbers).as_str());
                    text.append("}");
                    text
                }
            },
        }
    }
}

/// Joins the texts with a comma and a space between them.
pub fn join(texts: &Vec<String>) -> (text: String)
    ensures
        text@ == joined(views(texts@)),
{
    let mut text: String = String::new();
    let mut i: usize = 0;
    assert(views(texts@).take(0) =~= Seq::<Seq<char>>::empty());
    while i < texts.len()
        invariant
            i <= texts.len(),
            text@ == joined(views(texts@).take(i as int)),
        decreases texts.len() - i,
    {
        proof {
            let longer = views(texts@).take(i + 1);
            assert(longer.drop_last() =~= views(texts@).take(i as int));
            assert(longer.last() == texts@[i as int]@);
            if i == 0 {
                assert(joined(longer) == longer[0]);
                assert(text@ =~= Seq::<char>::empty());
            }
        }
        if i > 0 {
            text.append(", ");
        }
        text.append(texts[i].as_str());
        proof {
            if i == 0 {
                assert(text@ =~= texts@[0]@);
            }
        }
        i = i + 1;
    }
    assert(views(texts@).take(i as int) =~= views(texts@));
    text
}

} // verus!
