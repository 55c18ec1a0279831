//! Where white space may stand, it does not matter how much of it, and of what kind, stands there.

use crate::cf::syntax::grammar::Grammar;
use crate::cf::syntax::reading::{
    CondBrNames, CondBrSyntax, ForNames, ForSyntax, NDForNames, NDForSyntax, TypeListStep,
    TypeListSyntax,
};
use vstd::prelude::*;

verus! {

impl Grammar {
    /// White space are the blank, the control characters from the tabulator to the carriage return,
    /// and the other characters that are said to be so.
    pub proof fn which_are_spaces(c: char)
        ensures
            Grammar::is_space(c) <==> {
                let n = c as u32;
                ||| 9 <= n <= 13
                ||| n == 32
                ||| n == 133
                ||| n == 160
                ||| n == 5760
                ||| 8192 <= n <= 8202
                ||| n == 8232
                ||| n == 8233
                ||| n == 8239
                ||| n == 8287
                ||| n == 12288
            },
            Grammar::is_word_char(c) <==> {
                let n = c as u32;
                ||| 48 <= n <= 57
                ||| 65 <= n <= 90
                ||| n == 95
                ||| 97 <= n <= 122
            },
            Grammar::is_word_start(c) <==> Grammar::is_word_char(c) && !(48 <= c as u32 <= 57),
    {
    }

    /// Is there nothing but white space from `i` to `j`?
    pub open spec fn gap(s: Seq<char>, i: int, j: int) -> bool {
        &&& 0 <= i <= j <= s.len()
        &&& forall|k: int| i <= k < j ==> Grammar::is_space(#[trigger] s[k])
    }

    /// Does something other than white space stand at `i`, or nothing at all?
    pub open spec fn past_gap(s: Seq<char>, i: int) -> bool {
        i == s.len() || (0 <= i < s.len() && !Grammar::is_space(s[i]))
    }

    /// Does the text stand from `i` to `j`?
    pub open spec fn text_at(s: Seq<char>, i: int, j: int, text: Seq<char>) -> bool {
        0 <= i <= j <= s.len() && s.subrange(i, j) == text
    }

    /// Does what stands at `j` not prolong a word that ends there?
    pub open spec fn word_over(s: Seq<char>, j: int) -> bool {
        j == s.len() || (0 <= j < s.len() && !Grammar::is_word_char(s[j]))
    }

    /// White space is passed over to its end.
    pub proof fn passes_gap(s: Seq<char>, i: int, j: int)
        requires
            Grammar::gap(s, i, j),
            Grammar::past_gap(s, j),
        ensures
            Grammar::spaces(s, i) == j,
        decreases j - i,
    {
        if i < j {
            assert(Grammar::is_space(s[i]));
            Grammar::passes_gap(s, i + 1, j);
        }
    }

    /// A given text is read with whatever white space stands around it.
    pub proof fn spaced_is_read(s: Seq<char>, i: int, a: int, b: int, j: int, text: Seq<char>)
        requires
            Grammar::gap(s, i, a),
            Grammar::text_at(s, a, b, text),
            text.len() > 0,
            !Grammar::is_space(text[0]),
            Grammar::gap(s, b, j),
            Grammar::past_gap(s, j),
        ensures
            Grammar::spaced(s, i, text) == Some(j),
    {
        assert(s.subrange(a, b)[0] == s[a]);
        Grammar::passes_gap(s, i, a);
        Grammar::passes_gap(s, b, j);
    }

    /// Where the letters, digits and underscores end, the word ends.
    proof fn word_goes_to(s: Seq<char>, i: int, j: int)
        requires
            0 <= i <= j <= s.len(),
            forall|k: int| i <= k < j ==> Grammar::is_word_char(#[trigger] s[k]),
            Grammar::word_over(s, j),
        ensures
            Grammar::word_end(s, i) == j,
        decreases j - i,
    {
        if i < j {
            assert(Grammar::is_word_char(s[i]));
            Grammar::word_goes_to(s, i + 1, j);
        }
    }

    /// An identifier is read where it stands, if nothing prolongs it.
    pub proof fn identifier_is_read(s: Seq<char>, i: int, j: int, name: Seq<char>)
        requires
            Grammar::text_at(s, i, j, name),
            Grammar::is_identifier(name),
            Grammar::word_over(s, j),
        ensures
            Grammar::identifier(s, i) == Some((name, j)),
            !Grammar::is_space(s[i]),
    {
        assert(s.subrange(i, j).len() == name.len());
        assert forall|k: int| i <= k < j implies Grammar::is_word_char(#[trigger] s[k]) by {
            assert(s.subrange(i, j)[k - i] == s[k]);
            assert(Grammar::is_word_char(name[k - i]));
        }
        assert(s.subrange(i, j)[0] == s[i]);
        assert(Grammar::is_word_start(name[0]));
        Grammar::word_goes_to(s, i, j);
    }

    /// Do identifiers stand with commas between them? Name `k` stands from `at[k]` to `to[k]`, the
    /// comma behind it at `comma[k]`, and the white space behind the last one ends at `end`.
    pub open spec fn listed(
        s: Seq<char>,
        names: Seq<Seq<char>>,
        at: Seq<int>,
        to: Seq<int>,
        comma: Seq<int>,
        end: int,
    ) -> bool {
        let n = names.len();
        &&& n > 0
        &&& at.len() == n
        &&& to.len() == n
        &&& comma.len() == n - 1
        &&& forall|k: int|
            0 <= k < n ==> Grammar::is_identifier(#[trigger] names[k]) && Grammar::text_at(
                s,
                at[k],
                to[k],
                names[k],
            )
        &&& forall|k: int|
            0 <= k < n - 1 ==> Grammar::gap(s, to[k], #[trigger] comma[k]) && comma[k] < s.len()
                && s[comma[k]] == ',' && Grammar::gap(s, comma[k] + 1, at[k + 1])
        &&& Grammar::gap(s, to[n - 1], end)
        &&& Grammar::past_gap(s, end)
        &&& end < s.len() ==> s[end] != ','
        &&& Grammar::word_over(s, to[n - 1])
    }

    /// Identifiers with commas between them are read with whatever white space stands around the
    /// commas and behind them.
    pub proof fn identifiers_are_read(
        s: Seq<char>,
        names: Seq<Seq<char>>,
        at: Seq<int>,
        to: Seq<int>,
        comma: Seq<int>,
        end: int,
    )
        requires
            Grammar::listed(s, names, at, to, comma, end),
        ensures
            Grammar::identifiers(s, at[0]) == Some((names, end)),
            0 <= at[0] < s.len(),
            !Grammar::is_space(s[at[0]]),
            Grammar::identifier(s, at[0]) is Some,
        decreases names.len(),
    {
        assert(Grammar::is_identifier(names[0]));
        assert(s.subrange(at[0], to[0]).len() == names[0].len());
        if names.len() == 1 {
            Grammar::identifier_is_read(s, at[0], to[0], names[0]);
            Grammar::passes_gap(s, to[0], end);
            assert(names =~= seq![names[0]]);
        } else {
            assert(Grammar::gap(s, to[0], comma[0]));
            let c = comma[0];
            assert(Grammar::word_over(s, to[0])) by {
                if to[0] < c {
                    assert(Grammar::is_space(s[to[0]]));
                }
            }
            Grammar::identifier_is_read(s, at[0], to[0], names[0]);
            Grammar::passes_gap(s, to[0], c);
            let (rest, starts, stops, commas) = (
                names.skip(1),
                at.skip(1),
                to.skip(1),
                comma.skip(1),
            );
            assert forall|k: int| 0 <= k < rest.len() implies Grammar::is_identifier(
                #[trigger] rest[k],
            ) && Grammar::text_at(s, starts[k], stops[k], rest[k]) by {
                assert(rest[k] == names[k + 1]);
            }
            assert forall|k: int| 0 <= k < rest.len() - 1 implies Grammar::gap(
                s,
                stops[k],
                #[trigger] commas[k],
            ) && commas[k] < s.len() && s[commas[k]] == ',' && Grammar::gap(
                s,
                commas[k] + 1,
                starts[k + 1],
            ) by {
                assert(commas[k] == comma[k + 1]);
            }
            Grammar::identifiers_are_read(s, rest, starts, stops, commas, end);
            Grammar::passes_gap(s, c + 1, at[1]);
            assert(seq![names[0]] + rest =~= names);
        }
    }

    /// A list of identifiers is read with whatever white space stands in it.
    pub proof fn list_is_read(
        s: Seq<char>,
        i: int,
        open: char,
        close: char,
        names: Seq<Seq<char>>,
        at: Seq<int>,
        to: Seq<int>,
        comma: Seq<int>,
        end: int,
    )
        requires
            0 <= i < s.len(),
            s[i] == open,
            Grammar::listed(s, names, at, to, comma, end),
            Grammar::gap(s, i + 1, at[0]),
            end < s.len(),
            s[end] == close,
        ensures
            Grammar::list(s, i, open, close) == Some((names, end + 1)),
    {
        Grammar::identifiers_are_read(s, names, at, to, comma, end);
        Grammar::passes_gap(s, i + 1, at[0]);
    }

    /// An empty list is read with whatever white space stands in it.
    pub proof fn empty_list_is_read(s: Seq<char>, i: int, open: char, close: char, end: int)
        requires
            0 <= i < s.len(),
            s[i] == open,
            Grammar::gap(s, i + 1, end),
            end < s.len(),
            s[end] == close,
            !Grammar::is_space(close),
            !Grammar::is_word_start(close),
        ensures
            Grammar::list(s, i, open, close) == Some((Seq::<Seq<char>>::empty(), end + 1)),
    {
        Grammar::passes_gap(s, i + 1, end);
    }
}

impl ForNames {
    /// A loop is read with whatever white space stands between its parts: there must be some only
    /// before `to` and before `step`.
    pub proof fn is_read(
        self,
        s: Seq<char>,
        lower: (int, int),
        to: (int, int),
        upper: (int, int),
        by: (int, int),
        step: (int, int),
        open: int,
        close: int,
        end: int,
    )
        requires
            self.are_identifiers(),
            Grammar::text_at(s, lower.0, lower.1, self.lower_bound),
            Grammar::gap(s, lower.1, to.0),
            lower.1 < to.0,
            Grammar::text_at(s, to.0, to.1, "to"@),
            Grammar::gap(s, to.1, upper.0),
            Grammar::text_at(s, upper.0, upper.1, self.upper_bound),
            Grammar::gap(s, upper.1, by.0),
            upper.1 < by.0,
            Grammar::text_at(s, by.0, by.1, "step"@),
            Grammar::gap(s, by.1, step.0),
            Grammar::text_at(s, step.0, step.1, self.step),
            Grammar::gap(s, step.1, open),
            Grammar::list(s, open, '(', ')') == Some((self.iter_args_init, close)),
            Grammar::gap(s, close, end),
            Grammar::past_gap(s, end),
        ensures
            ForSyntax::reading(s, lower.0) == Some((self, end)),
    {
        reveal_strlit("to");
        reveal_strlit("step");
        assert(Grammar::is_space(s[lower.1]));
        assert(Grammar::is_space(s[upper.1]));
        Grammar::identifier_is_read(s, lower.0, lower.1, self.lower_bound);
        assert(Grammar::word_over(s, upper.1));
        Grammar::identifier_is_read(s, upper.0, upper.1, self.upper_bound);
        Grammar::spaced_is_read(s, lower.1, to.0, to.1, upper.0, "to"@);
        assert(s[open] == '(');
        assert(Grammar::word_over(s, step.1)) by {
            if step.1 < open {
                assert(Grammar::is_space(s[step.1]));
            }
        }
        Grammar::identifier_is_read(s, step.0, step.1, self.step);
        Grammar::spaced_is_read(s, upper.1, by.0, by.1, step.0, "step"@);
        Grammar::passes_gap(s, step.1, open);
        Grammar::passes_gap(s, close, end);
    }
}

impl NDForNames {
    /// A loop over several dimensions is read with whatever white space stands between its parts.
    pub proof fn is_read(
        self,
        s: Seq<char>,
        lower: (int, int),
        to: (int, int),
        upper: (int, int),
        by: (int, int),
        steps: (int, int),
        end: int,
    )
        requires
            Grammar::list(s, lower.0, '[', ']') == Some((self.lower_bounds, lower.1)),
            Grammar::gap(s, lower.1, to.0),
            Grammar::text_at(s, to.0, to.1, "to"@),
            Grammar::gap(s, to.1, upper.0),
            Grammar::list(s, upper.0, '[', ']') == Some((self.upper_bounds, upper.1)),
            Grammar::gap(s, upper.1, by.0),
            Grammar::text_at(s, by.0, by.1, "step"@),
            Grammar::gap(s, by.1, steps.0),
            Grammar::list(s, steps.0, '[', ']') == Some((self.steps, steps.1)),
            Grammar::gap(s, steps.1, end),
            Grammar::past_gap(s, end),
        ensures
            NDForSyntax::reading(s, lower.0) == Some((self, end)),
    {
        reveal_strlit("to");
        reveal_strlit("step");
        Grammar::spaced_is_read(s, lower.1, to.0, to.1, upper.0, "to"@);
        Grammar::spaced_is_read(s, upper.1, by.0, by.1, steps.0, "step"@);
        Grammar::passes_gap(s, steps.1, end);
    }
}

impl CondBrNames {
    /// A conditional branch is read with whatever white space stands between its parts.
    pub proof fn is_read(
        self,
        s: Seq<char>,
        start: int,
        word: (int, int),
        condition: (int, int),
        caret: int,
        dest: int,
        list: (int, int),
        other: (int, int),
        other_caret: int,
        other_dest: int,
        other_list: (int, int),
    )
        requires
            self.are_identifiers(),
            Grammar::gap(s, start, word.0),
            Grammar::text_at(s, word.0, word.1, "if"@),
            Grammar::gap(s, word.1, condition.0),
            Grammar::text_at(s, condition.0, condition.1, self.condition),
            Grammar::gap(s, condition.1, caret),
            caret < s.len(),
            s[caret] == '^',
            Grammar::text_at(s, caret + 1, dest, self.true_dest),
            Grammar::gap(s, dest, list.0),
            Grammar::list(s, list.0, '(', ')') == Some((self.true_dest_opds, list.1)),
            Grammar::gap(s, list.1, other.0),
            Grammar::text_at(s, other.0, other.1, "else"@),
            Grammar::gap(s, other.1, other_caret),
            other_caret < s.len(),
            s[other_caret] == '^',
            Grammar::text_at(s, other_caret + 1, other_dest, self.false_dest),
            Grammar::gap(s, other_dest, other_list.0),
            Grammar::list(s, other_list.0, '(', ')') == Some((self.false_dest_opds, other_list.1)),
        ensures
            CondBrSyntax::reading(s, start) == Some((self, other_list.1)),
    {
        reveal_strlit("if");
        reveal_strlit("else");
        assert(Grammar::word_over(s, condition.1)) by {
            if condition.1 < caret {
                assert(Grammar::is_space(s[condition.1]));
            }
        }
        Grammar::identifier_is_read(s, condition.0, condition.1, self.condition);
        Grammar::spaced_is_read(s, start, word.0, word.1, condition.0, "if"@);
        Grammar::destination_is_read(
            s,
            condition.1,
            caret,
            dest,
            list.0,
            list.1,
            self.true_dest,
            self.true_dest_opds,
        );
        Grammar::spaced_is_read(s, list.1, other.0, other.1, other_caret, "else"@);
        Grammar::destination_is_read(
            s,
            other_caret,
            other_caret,
            other_dest,
            other_list.0,
            other_list.1,
            self.false_dest,
            self.false_dest_opds,
        );
    }
}

impl Grammar {
    /// A target is read with whatever white space stands before its caret and its list.
    proof fn destination_is_read(
        s: Seq<char>,
        i: int,
        caret: int,
        dest_end: int,
        open: int,
        end: int,
        dest: Seq<char>,
        opds: Seq<Seq<char>>,
    )
        requires
            Grammar::gap(s, i, caret),
            caret < s.len(),
            s[caret] == '^',
            Grammar::is_identifier(dest),
            Grammar::text_at(s, caret + 1, dest_end, dest),
            Grammar::gap(s, dest_end, open),
            Grammar::list(s, open, '(', ')') == Some((opds, end)),
        ensures
            Grammar::destination(s, i) == Some((dest, opds, end)),
    {
        reveal_strlit("^");
        Grammar::passes_gap(s, i, caret);
        assert(s.subrange(caret, caret + 1) =~= "^"@);
        assert(Grammar::word_over(s, dest_end)) by {
            if dest_end < open {
                assert(Grammar::is_space(s[dest_end]));
            }
        }
        Grammar::identifier_is_read(s, caret + 1, dest_end, dest);
        Grammar::passes_gap(s, dest_end, open);
    }
}

impl TypeListSyntax {
    /// Behind a type of a list stands a comma, and then the next type begins behind the white space
    /// that follows, or a closing parenthesis, and then the list is over; otherwise it is no list.
    pub proof fn goes_on(s: Seq<char>, i: int, j: int, end: int)
        requires
            s.len() <= usize::MAX,
            Grammar::gap(s, i, j),
            Grammar::past_gap(s, j),
            j < s.len() ==> Grammar::gap(s, j + 1, end),
            Grammar::past_gap(s, end),
        ensures
            j < s.len() && s[j] == ',' ==> TypeListSyntax::going_on(s, i) == TypeListStep::TypeAt(
                end as usize,
            ),
            j < s.len() && s[j] == ')' ==> TypeListSyntax::going_on(s, i) == TypeListStep::End(
                end as usize,
            ),
            j == s.len() || (s[j] != ',' && s[j] != ')') ==> TypeListSyntax::going_on(s, i)
                == TypeListStep::Malformed,
    {
        Grammar::passes_gap(s, i, j);
        if j < s.len() {
            Grammar::passes_gap(s, j + 1, end);
        }
    }

    /// A list of types begins with an arrow and an opening parenthesis, with whatever white space
    /// stands around them. If the parenthesis is closed right away, there are no types.
    pub proof fn begins(s: Seq<char>, i: int, a: int, b: int, open: int, first: int, end: int)
        requires
            s.len() <= usize::MAX,
            Grammar::gap(s, i, a),
            Grammar::text_at(s, a, b, "->"@),
            Grammar::gap(s, b, open),
            Grammar::past_gap(s, open),
            open < s.len() ==> Grammar::gap(s, open + 1, first),
            Grammar::past_gap(s, first),
            first < s.len() ==> Grammar::gap(s, first + 1, end),
            Grammar::past_gap(s, end),
        ensures
            open == s.len() || s[open] != '(' ==> TypeListSyntax::beginning(s, i)
                == TypeListStep::Malformed,
            open < s.len() && s[open] == '(' && first < s.len() && s[first] == ')'
                ==> TypeListSyntax::beginning(s, i) == TypeListStep::End(end as usize),
            open < s.len() && s[open] == '(' && (first == s.len() || s[first] != ')')
                ==> TypeListSyntax::beginning(s, i) == TypeListStep::TypeAt(first as usize),
    {
        reveal_strlit("->");
        Grammar::spaced_is_read(s, i, a, b, open, "->"@);
        if open < s.len() {
            Grammar::passes_gap(s, open + 1, first);
        }
        if first < s.len() {
            Grammar::passes_gap(s, first + 1, end);
        }
    }

    /// Without an arrow there is no list of types.
    pub proof fn needs_an_arrow(s: Seq<char>, i: int, a: int)
        requires
            Grammar::gap(s, i, a),
            Grammar::past_gap(s, a),
            a + 2 > s.len() || s.subrange(a, a + 2) != "->"@,
        ensures
            TypeListSyntax::beginning(s, i) == TypeListStep::Malformed,
    {
        reveal_strlit("->");
        Grammar::passes_gap(s, i, a);
    }
}

} // verus!
