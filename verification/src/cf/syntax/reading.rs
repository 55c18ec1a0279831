//! Reading the operations: what stands between the name of an operation and its regions.

use crate::cf::syntax::grammar::Grammar;
use vstd::prelude::*;

verus! {

/// A conditional branch as it is written: the names of its condition, of its targets, and of
/// the values that it forwards to them.
#[derive(Debug)]
pub struct CondBrSyntax {
    pub condition: String,
    pub true_dest: String,
    pub true_dest_opds: Vec<String>,
    pub false_dest: String,
    pub false_dest_opds: Vec<String>,
}

/// The names in a conditional branch.
#[verifier::ext_equal]
pub struct CondBrNames {
    pub condition: Seq<char>,
    pub true_dest: Seq<char>,
    pub true_dest_opds: Seq<Seq<char>>,
    pub false_dest: Seq<char>,
    pub false_dest_opds: Seq<Seq<char>>,
}

impl View for CondBrSyntax {
    type V = CondBrNames;

    open spec fn view(&self) -> CondBrNames {
        CondBrNames {
            condition: self.condition@,
            true_dest: self.true_dest@,
            true_dest_opds: Grammar::texts(self.true_dest_opds@),
            false_dest: self.false_dest@,
            false_dest_opds: Grammar::texts(self.false_dest_opds@),
        }
    }
}

/// A loop as it is written: the names of its bounds, of its step, and of the initial values of
/// its loop-carried variables.
#[derive(Debug)]
pub struct ForSyntax {
    pub lower_bound: String,
    pub upper_bound: String,
    pub step: String,
    pub iter_args_init: Vec<String>,
}

/// The names in a loop.
#[verifier::ext_equal]
pub struct ForNames {
    pub lower_bound: Seq<char>,
    pub upper_bound: Seq<char>,
    pub step: Seq<char>,
    pub iter_args_init: Seq<Seq<char>>,
}

impl View for ForSyntax {
    type V = ForNames;

    open spec fn view(&self) -> ForNames {
        ForNames {
            lower_bound: self.lower_bound@,
            upper_bound: self.upper_bound@,
            step: self.step@,
            iter_args_init: Grammar::texts(self.iter_args_init@),
        }
    }
}

/// A loop over several dimensions as it is written: the names of its bounds and steps.
#[derive(Debug)]
pub struct NDForSyntax {
    pub lower_bounds: Vec<String>,
    pub upper_bounds: Vec<String>,
    pub steps: Vec<String>,
}

/// The names in a loop over several dimensions.
#[verifier::ext_equal]
pub struct NDForNames {
    pub lower_bounds: Seq<Seq<char>>,
    pub upper_bounds: Seq<Seq<char>>,
    pub steps: Seq<Seq<char>>,
}

impl View for NDForSyntax {
    type V = NDForNames;

    open spec fn view(&self) -> NDForNames {
        NDForNames {
            lower_bounds: Grammar::texts(self.lower_bounds@),
            upper_bounds: Grammar::texts(self.upper_bounds@),
            steps: Grammar::texts(self.steps@),
        }
    }
}

impl Grammar {
    /// A block name, with white space around it, and the list of names behind it.
    pub open spec fn destination(s: Seq<char>, i: int) -> Option<
        (Seq<char>, Seq<Seq<char>>, int),
    > {
        match Grammar::literal(s, Grammar::spaces(s, i), "^"@) {
            None => None,
            Some(label) => match Grammar::identifier(s, label) {
                None => None,
                Some((dest, end)) => match Grammar::list(s, Grammar::spaces(s, end), '(', ')') {
                    None => None,
                    Some((opds, end)) => Some((dest, opds, end)),
                },
            },
        }
    }

    /// Reads a block name and the list of names behind it.
    pub fn read_destination(s: &Vec<char>, start: usize) -> (read: Option<
        (String, Vec<String>, usize),
    >)
        requires
            start <= s@.len(),
        ensures
            match read {
                Some((dest, opds, end)) => Grammar::destination(s@, start as int) == Some(
                    (dest@, Grammar::texts(opds@), end as int),
                ) && start <= end <= s@.len(),
                None => Grammar::destination(s@, start as int) is None,
            },
    {
        match Grammar::read_literal(s, Grammar::read_spaces(s, start), "^") {
            None => None,
            Some(label) => match Grammar::read_identifier(s, label) {
                None => None,
                Some((dest, end)) => match Grammar::read_list(
                    s,
                    Grammar::read_spaces(s, end),
                    '(',
                    ')',
                ) {
                    None => None,
                    Some((opds, end)) => Some((dest, opds, end)),
                },
            },
        }
    }
}

impl CondBrSyntax {
    /// `if condition ^true_dest(true_dest_opds) else ^false_dest(false_dest_opds)`
    pub open spec fn reading(s: Seq<char>, i: int) -> Option<(CondBrNames, int)> {
        match Grammar::spaced(s, i, "if"@) {
            None => None,
            Some(i) => match Grammar::identifier(s, i) {
                None => None,
                Some((condition, i)) => match Grammar::destination(s, i) {
                    None => None,
                    Some((true_dest, true_dest_opds, i)) => match Grammar::spaced(s, i, "else"@) {
                        None => None,
                        Some(i) => match Grammar::destination(s, i) {
                            None => None,
                            Some((false_dest, false_dest_opds, i)) => Some(
                                (
                                    CondBrNames {
                                        condition,
                                        true_dest,
                                        true_dest_opds,
                                        false_dest,
                                        false_dest_opds,
                                    },
                                    i,
                                ),
                            ),
                        },
                    },
                },
            },
        }
    }

    /// Reads a conditional branch from `start` on. Gives where it ends.
    pub fn read(s: &Vec<char>, start: usize) -> (read: Option<(CondBrSyntax, usize)>)
        requires
            start <= s@.len(),
        ensures
            match read {
                Some((syntax, end)) => CondBrSyntax::reading(s@, start as int) == Some(
                    (syntax@, end as int),
                ) && start <= end <= s@.len(),
                None => CondBrSyntax::reading(s@, start as int) is None,
            },
    {
        let i: usize = match Grammar::read_spaced(s, start, "if") {
            None => {
                return None;
            },
            Some(i) => i,
        };
        let (condition, i) = match Grammar::read_identifier(s, i) {
            None => {
                return None;
            },
            Some(read) => read,
        };
        let (true_dest, true_dest_opds, i) = match Grammar::read_destination(s, i) {
            None => {
                return None;
            },
            Some(read) => read,
        };
        let i: usize = match Grammar::read_spaced(s, i, "else") {
            None => {
                return None;
            },
            Some(i) => i,
        };
        let (false_dest, false_dest_opds, i) = match Grammar::read_destination(s, i) {
            None => {
                return None;
            },
            Some(read) => read,
        };
        Some(
            (
                CondBrSyntax { condition, true_dest, true_dest_opds, false_dest, false_dest_opds },
                i,
            ),
        )
    }
}

impl ForSyntax {
    /// `lower_bound to upper_bound step step (iter_args_init)`, and the white space behind it.
    pub open spec fn reading(s: Seq<char>, i: int) -> Option<(ForNames, int)> {
        match Grammar::identifier(s, i) {
            None => None,
            Some((lower_bound, i)) => match Grammar::spaced(s, i, "to"@) {
                None => None,
                Some(i) => match Grammar::identifier(s, i) {
                    None => None,
                    Some((upper_bound, i)) => match Grammar::spaced(s, i, "step"@) {
                        None => None,
                        Some(i) => match Grammar::identifier(s, i) {
                            None => None,
                            Some((step, i)) => match Grammar::list(
                                s,
                                Grammar::spaces(s, i),
                                '(',
                                ')',
                            ) {
                                None => None,
                                Some((iter_args_init, i)) => Some(
                                    (
                                        ForNames {
                                            lower_bound,
                                            upper_bound,
                                            step,
                                            iter_args_init,
                                        },
                                        Grammar::spaces(s, i),
                                    ),
                                ),
                            },
                        },
                    },
                },
            },
        }
    }

    /// Reads a loop from `start` on. Gives where its region begins.
    pub fn read(s: &Vec<char>, start: usize) -> (read: Option<(ForSyntax, usize)>)
        requires
            start <= s@.len(),
        ensures
            match read {
                Some((syntax, end)) => ForSyntax::reading(s@, start as int) == Some(
                    (syntax@, end as int),
                ) && start <= end <= s@.len(),
                None => ForSyntax::reading(s@, start as int) is None,
            },
    {
        let (lower_bound, i) = match Grammar::read_identifier(s, start) {
            None => {
                return None;
            },
            Some(read) => read,
        };
        let i: usize = match Grammar::read_spaced(s, i, "to") {
            None => {
                return None;
            },
            Some(i) => i,
        };
        let (upper_bound, i) = match Grammar::read_identifier(s, i) {
            None => {
                return None;
            },
            Some(read) => read,
        };
        let i: usize = match Grammar::read_spaced(s, i, "step") {
            None => {
                return None;
            },
            Some(i) => i,
        };
        let (step, i) = match Grammar::read_identifier(s, i) {
            None => {
                return None;
            },
            Some(read) => read,
        };
        let i: usize = Grammar::read_spaces(s, i);
        let (iter_args_init, i) = match Grammar::read_list(s, i, '(', ')') {
            None => {
                return None;
            },
            Some(read) => read,
        };
        let end: usize = Grammar::read_spaces(s, i);
        Some((ForSyntax { lower_bound, upper_bound, step, iter_args_init }, end))
    }
}

impl NDForSyntax {
    /// `[lower_bounds] to [upper_bounds] step [steps]`, and the white space behind it.
    pub open spec fn reading(s: Seq<char>, i: int) -> Option<(NDForNames, int)> {
        match Grammar::list(s, i, '[', ']') {
            None => None,
            Some((lower_bounds, i)) => match Grammar::spaced(s, i, "to"@) {
                None => None,
                Some(i) => match Grammar::list(s, i, '[', ']') {
                    None => None,
                    Some((upper_bounds, i)) => match Grammar::spaced(s, i, "step"@) {
                        None => None,
                        Some(i) => match Grammar::list(s, i, '[', ']') {
                            None => None,
                            Some((steps, i)) => Some(
                                (
                                    NDForNames { lower_bounds, upper_bounds, steps },
                                    Grammar::spaces(s, i),
                                ),
                            ),
                        },
                    },
                },
            },
        }
    }

    /// Reads a loop over several dimensions from `start` on. Gives where its region begins.
    pub fn read(s: &Vec<char>, start: usize) -> (read: Option<(NDForSyntax, usize)>)
        requires
            start <= s@.len(),
        ensures
            match read {
                Some((syntax, end)) => NDForSyntax::reading(s@, start as int) == Some(
                    (syntax@, end as int),
                ) && start <= end <= s@.len(),
                None => NDForSyntax::reading(s@, start as int) is None,
            },
    {
        let (lower_bounds, i) = match Grammar::read_list(s, start, '[', ']') {
            None => {
                return None;
            },
            Some(read) => read,
        };
        let i: usize = match Grammar::read_spaced(s, i, "to") {
            None => {
                return None;
            },
            Some(i) => i,
        };
        let (upper_bounds, i) = match Grammar::read_list(s, i, '[', ']') {
            None => {
                return None;
            },
            Some(read) => read,
        };
        let i: usize = match Grammar::read_spaced(s, i, "step") {
            None => {
                return None;
            },
            Some(i) => i,
        };
        let (steps, i) = match Grammar::read_list(s, i, '[', ']') {
            None => {
                return None;
            },
            Some(read) => read,
        };
        let end: usize = Grammar::read_spaces(s, i);
        Some((NDForSyntax { lower_bounds, upper_bounds, steps }, end))
    }
}

/// What is to come in a list of types, each of which is read by the dialect that it is from.
#[derive(Debug, Clone, Copy, PartialEq, Eq, Structural)]
pub enum TypeListStep {
    /// A type begins here.
    TypeAt(usize),
    /// The list is over; what is behind it begins here.
    End(usize),
    /// This is no list of types.
    Malformed,
}

/// Reading a list of types, `-> (type, type, ...)`, one after the other.
pub struct TypeListSyntax;

impl TypeListSyntax {
    /// What is to come at a place where a list of types begins.
    pub open spec fn beginning(s: Seq<char>, i: int) -> TypeListStep {
        match Grammar::spaced(s, i, "->"@) {
            None => TypeListStep::Malformed,
            Some(i) => if i < s.len() && s[i] == '(' {
                let first = Grammar::spaces(s, i + 1);
                if first < s.len() && s[first] == ')' {
                    TypeListStep::End(Grammar::spaces(s, first + 1) as usize)
                } else {
                    TypeListStep::TypeAt(first as usize)
                }
            } else {
                TypeListStep::Malformed
            },
        }
    }

    /// What is to come at a place where a type of the list has ended.
    pub open spec fn going_on(s: Seq<char>, i: int) -> TypeListStep {
        let end = Grammar::spaces(s, i);
        if end < s.len() && s[end] == ',' {
            TypeListStep::TypeAt(Grammar::spaces(s, end + 1) as usize)
        } else if end < s.len() && s[end] == ')' {
            TypeListStep::End(Grammar::spaces(s, end + 1) as usize)
        } else {
            TypeListStep::Malformed
        }
    }

    /// Reads the beginning of a list of types.
    pub fn begin(s: &Vec<char>, start: usize) -> (step: TypeListStep)
        requires
            start <= s@.len(),
        ensures
            step == TypeListSyntax::beginning(s@, start as int),
    {
        match Grammar::read_spaced(s, start, "->") {
            None => TypeListStep::Malformed,
            Some(i) => if Grammar::read_char(s, i, '(') {
                let first: usize = Grammar::read_spaces(s, i + 1);
                if Grammar::read_char(s, first, ')') {
                    TypeListStep::End(Grammar::read_spaces(s, first + 1))
                } else {
                    TypeListStep::TypeAt(first)
                }
            } else {
                TypeListStep::Malformed
            },
        }
    }

    /// Reads what follows a type of a list.
    pub fn go_on(s: &Vec<char>, type_end: usize) -> (step: TypeListStep)
        requires
            type_end <= s@.len(),
        ensures
            step == TypeListSyntax::going_on(s@, type_end as int),
    {
        let end: usize = Grammar::read_spaces(s, type_end);
        if Grammar::read_char(s, end, ',') {
            TypeListStep::TypeAt(Grammar::read_spaces(s, end + 1))
        } else if Grammar::read_char(s, end, ')') {
            TypeListStep::End(Grammar::read_spaces(s, end + 1))
        } else {
            TypeListStep::Malformed
        }
    }
}

} // verus!
