//! What is written is what is read.

use crate::cf::syntax::grammar::Grammar;
use crate::cf::syntax::reading::{
    CondBrNames, CondBrSyntax, ForNames, ForSyntax, NDForNames, NDForSyntax, TypeListStep,
    TypeListSyntax,
};
use vstd::prelude::*;

verus! {

impl Grammar {
    /// Does the text stand at `i`?
    #[verifier::opaque]
    pub open spec fn stands(s: Seq<char>, i: int, text: Seq<char>) -> bool {
        &&& 0 <= i
        &&& i + text.len() <= s.len()
        &&& s.subrange(i, i + text.len()) == text
    }

    /// Are these identifiers?
    pub open spec fn are_identifiers(names: Seq<Seq<char>>) -> bool {
        forall|k: int| 0 <= k < names.len() ==> Grammar::is_identifier(#[trigger] names[k])
    }

    /// Where two texts stand one behind the other, each of them stands.
    proof fn stands_apart(s: Seq<char>, i: int, first: Seq<char>, second: Seq<char>)
        requires
            Grammar::stands(s, i, first + second),
        ensures
            Grammar::stands(s, i, first),
            Grammar::stands(s, i + first.len(), second),
    {
        reveal(Grammar::stands);
        let both = first + second;
        let found = s.subrange(i, i + both.len());
        assert forall|k: int| 0 <= k < both.len() implies s[i + k] == both[k] by {
            assert(found[k] == s[i + k]);
        }
        assert(s.subrange(i, i + first.len()) =~= first);
        let j = i + first.len();
        assert forall|k: int| 0 <= k < second.len() implies s[j + k] == second[k] by {
            assert(both[first.len() + k] == second[k]);
        }
        assert(s.subrange(j, j + second.len()) =~= second);
    }

    /// The characters of a text that stands at `i`.
    proof fn stands_char(s: Seq<char>, i: int, text: Seq<char>, k: int)
        requires
            Grammar::stands(s, i, text),
            0 <= k < text.len(),
        ensures
            0 <= i,
            i + text.len() <= s.len(),
            s[i + k] == text[k],
    {
        reveal(Grammar::stands);
        assert(s.subrange(i, i + text.len())[k] == s[i + k]);
    }

    /// A text is read where it stands.
    proof fn reads_literal(s: Seq<char>, i: int, text: Seq<char>)
        requires
            Grammar::stands(s, i, text),
        ensures
            Grammar::literal(s, i, text) == Some(i + text.len()),
    {
        reveal(Grammar::stands);
    }

    /// A word ends where its characters end.
    proof fn word_ends(s: Seq<char>, i: int, end: int)
        requires
            0 <= i <= end <= s.len(),
            forall|k: int| i <= k < end ==> Grammar::is_word_char(#[trigger] s[k]),
            end < s.len() ==> !Grammar::is_word_char(s[end]),
        ensures
            Grammar::word_end(s, i) == end,
        decreases end - i,
    {
        if i < end {
            assert(Grammar::is_word_char(s[i]));
            Grammar::word_ends(s, i + 1, end);
        }
    }

    /// An identifier is read where it stands, if what follows it does not prolong it.
    proof fn reads_identifier(s: Seq<char>, i: int, name: Seq<char>)
        requires
            Grammar::stands(s, i, name),
            Grammar::is_identifier(name),
            i + name.len() < s.len() ==> !Grammar::is_word_char(s[i + name.len()]),
        ensures
            Grammar::identifier(s, i) == Some((name, i + name.len())),
    {
        let end = i + name.len();
        assert(Grammar::is_word_char(name[name.len() - 1]));
        Grammar::stands_char(s, i, name, name.len() - 1);
        assert forall|k: int| i <= k < end implies Grammar::is_word_char(#[trigger] s[k]) by {
            Grammar::stands_char(s, i, name, k - i);
            assert(Grammar::is_word_char(name[k - i]));
        }
        Grammar::stands_char(s, i, name, 0);
        Grammar::word_ends(s, i, end);
        assert(s.subrange(i, end) == name) by {
            reveal(Grammar::stands);
        }
    }

    /// The first of several joined names comes before the others.
    proof fn joined_front(names: Seq<Seq<char>>)
        requires
            names.len() >= 2,
        ensures
            Grammar::joined(names) == names[0] + (", "@ + Grammar::joined(names.skip(1))),
        decreases names.len(),
    {
        let rest = names.skip(1);
        if names.len() == 2 {
            assert(names.drop_last().len() == 1);
            assert(Grammar::joined(names.drop_last()) == names[0]);
            assert(Grammar::joined(rest) == names[1]);
            assert(Grammar::joined(names) =~= names[0] + (", "@ + Grammar::joined(rest)));
        } else {
            Grammar::joined_front(names.drop_last());
            assert(names.drop_last().skip(1) =~= rest.drop_last());
            assert(rest.last() == names.last());
            assert(Grammar::joined(names) =~= names[0] + (", "@ + Grammar::joined(rest)));
        }
    }

    /// Joined identifiers are read where they stand.
    proof fn reads_identifiers(s: Seq<char>, i: int, names: Seq<Seq<char>>)
        requires
            names.len() > 0,
            Grammar::are_identifiers(names),
            Grammar::stands(s, i, Grammar::joined(names)),
            i + Grammar::joined(names).len() < s.len(),
            ({
                let next = s[i + Grammar::joined(names).len()];
                !Grammar::is_word_char(next) && !Grammar::is_space(next) && next != ','
            }),
        ensures
            Grammar::identifiers(s, i) == Some((names, i + Grammar::joined(names).len())),
        decreases names.len(),
    {
        assert(Grammar::is_identifier(names[0]));
        let end = i + Grammar::joined(names).len();
        if names.len() == 1 {
            Grammar::reads_identifier(s, i, names[0]);
            assert(Grammar::spaces(s, end) == end);
            assert(seq![names[0]] =~= names);
        } else {
            let rest = names.skip(1);
            Grammar::joined_front(names);
            reveal_strlit(", ");
            let name_end = i + names[0].len();
            Grammar::stands_apart(s, i, names[0], ", "@ + Grammar::joined(rest));
            Grammar::stands_apart(s, name_end, ", "@, Grammar::joined(rest));
            Grammar::stands_char(s, name_end, ", "@, 0);
            Grammar::stands_char(s, name_end, ", "@, 1);
            Grammar::reads_identifier(s, i, names[0]);
            assert(Grammar::spaces(s, name_end) == name_end);
            let next = name_end + 2;
            assert(Grammar::is_identifier(rest[0]));
            Grammar::joined_begins(rest);
            Grammar::stands_char(s, next, Grammar::joined(rest), 0);
            assert(Grammar::spaces(s, next) == next);
            assert(Grammar::spaces(s, name_end + 1) == next);
            assert forall|k: int| 0 <= k < rest.len() implies Grammar::is_identifier(
                #[trigger] rest[k],
            ) by {
                assert(rest[k] == names[k + 1]);
            }
            Grammar::reads_identifiers(s, next, rest);
            assert(seq![names[0]] + rest =~= names);
        }
    }

    /// Joined identifiers begin as the first of them does.
    proof fn joined_begins(names: Seq<Seq<char>>)
        requires
            names.len() > 0,
            Grammar::is_identifier(names[0]),
        ensures
            Grammar::joined(names).len() > 0,
            Grammar::is_word_start(Grammar::joined(names)[0]),
    {
        if names.len() > 1 {
            Grammar::joined_front(names);
        }
    }

    /// A list of identifiers is read where it stands.
    proof fn reads_list(s: Seq<char>, i: int, names: Seq<Seq<char>>, open: char, close: char)
        requires
            Grammar::are_identifiers(names),
            Grammar::stands(s, i, seq![open] + (Grammar::joined(names) + seq![close])),
            !Grammar::is_word_char(close),
            !Grammar::is_space(close),
            close != ',',
        ensures
            Grammar::list(s, i, open, close) == Some((names, i + Grammar::joined(names).len() + 2)),
    {
        let inner = Grammar::joined(names);
        Grammar::stands_apart(s, i, seq![open], inner + seq![close]);
        Grammar::stands_char(s, i, seq![open], 0);
        Grammar::stands_apart(s, i + 1, inner, seq![close]);
        Grammar::stands_char(s, i + 1 + inner.len(), seq![close], 0);
        if names.len() == 0 {
            assert(Grammar::spaces(s, i + 1) == i + 1);
            assert(names =~= Seq::empty());
        } else {
            assert(Grammar::is_identifier(names[0]));
            Grammar::joined_begins(names);
            Grammar::stands_char(s, i + 1, inner, 0);
            assert(Grammar::spaces(s, i + 1) == i + 1);
            Grammar::reads_identifiers(s, i + 1, names);
        }
    }

    /// A word with a blank on either side is read where it stands.
    proof fn reads_spaced(s: Seq<char>, i: int, padded: Seq<char>, word: Seq<char>)
        requires
            padded == seq![' '] + (word + seq![' ']),
            word.len() > 0,
            !Grammar::is_space(word[0]),
            Grammar::stands(s, i, padded),
            i + padded.len() < s.len(),
            !Grammar::is_space(s[i + padded.len()]),
        ensures
            Grammar::spaced(s, i, word) == Some(i + padded.len()),
    {
        Grammar::stands_apart(s, i, seq![' '], word + seq![' ']);
        Grammar::stands_char(s, i, seq![' '], 0);
        Grammar::stands_apart(s, i + 1, word, seq![' ']);
        Grammar::stands_char(s, i + 1, word, 0);
        Grammar::reads_literal(s, i + 1, word);
        let end = i + 1 + word.len();
        Grammar::stands_char(s, end, seq![' '], 0);
        assert(Grammar::spaces(s, i + 1) == i + 1);
        assert(Grammar::spaces(s, i) == i + 1);
        assert(Grammar::spaces(s, end + 1) == end + 1);
        assert(Grammar::spaces(s, end) == end + 1);
    }

    /// A text stands where it begins a text.
    pub(crate) proof fn stands_first(text: Seq<char>, rest: Seq<char>)
        ensures
            Grammar::stands(text + rest, 0, text),
    {
        reveal(Grammar::stands);
        assert((text + rest).subrange(0, text.len() as int) =~= text);
    }
}

impl ForNames {
    /// Are the names identifiers?
    pub open spec fn are_identifiers(self) -> bool {
        &&& Grammar::is_identifier(self.lower_bound)
        &&& Grammar::is_identifier(self.upper_bound)
        &&& Grammar::is_identifier(self.step)
        &&& Grammar::are_identifiers(self.iter_args_init)
    }

    /// The names in a loop are read as they were written, whatever stands behind them; the
    /// region is then looked for behind the white space that follows.
    #[verifier::rlimit(60)]
    pub proof fn reads_what_was_written(self, rest: Seq<char>)
        requires
            self.are_identifiers(),
        ensures
            ForSyntax::reading(self.text() + rest, 0) == Some(
                (self, Grammar::spaces(self.text() + rest, self.text().len() as int)),
            ),
    {
        let s = self.text() + rest;
        reveal_strlit(" to ");
        reveal_strlit("to");
        reveal_strlit(" step ");
        reveal_strlit("step");
        reveal_strlit(" (");
        reveal_strlit(") ");
        let list = seq!['('] + (Grammar::joined(self.iter_args_init) + seq![')']);
        let tail_4 = seq![' '] + (list + seq![' ']);
        let tail_3 = self.step + tail_4;
        let tail_2 = " step "@ + tail_3;
        let tail_1 = self.upper_bound + tail_2;
        let tail_0 = " to "@ + tail_1;
        assert(self.text() =~= self.lower_bound + tail_0);
        Grammar::stands_first(self.text(), rest);
        let at_to = self.lower_bound.len() as int;
        Grammar::stands_apart(s, 0, self.lower_bound, tail_0);
        Grammar::stands_apart(s, at_to, " to "@, tail_1);
        let at_upper = at_to + 4;
        Grammar::stands_apart(s, at_upper, self.upper_bound, tail_2);
        let at_step = at_upper + self.upper_bound.len();
        Grammar::stands_apart(s, at_step, " step "@, tail_3);
        let at_last = at_step + 6;
        Grammar::stands_apart(s, at_last, self.step, tail_4);
        let at_blank = at_last + self.step.len();
        Grammar::stands_apart(s, at_blank, seq![' '], list + seq![' ']);
        Grammar::stands_apart(s, at_blank + 1, list, seq![' ']);
        Grammar::stands_char(s, at_to, " to "@, 0);
        Grammar::stands_char(s, at_upper, self.upper_bound, 0);
        Grammar::stands_char(s, at_step, " step "@, 0);
        Grammar::stands_char(s, at_last, self.step, 0);
        Grammar::stands_char(s, at_blank, seq![' '], 0);
        Grammar::stands_char(s, at_blank + 1, list, 0);
        Grammar::reads_identifier(s, 0, self.lower_bound);
        assert(" to "@ =~= seq![' '] + ("to"@ + seq![' ']));
        Grammar::reads_spaced(s, at_to, " to "@, "to"@);
        Grammar::reads_identifier(s, at_upper, self.upper_bound);
        assert(" step "@ =~= seq![' '] + ("step"@ + seq![' ']));
        Grammar::reads_spaced(s, at_step, " step "@, "step"@);
        Grammar::reads_identifier(s, at_last, self.step);
        assert(Grammar::spaces(s, at_blank + 1) == at_blank + 1);
        assert(Grammar::spaces(s, at_blank) == at_blank + 1);
        Grammar::reads_list(s, at_blank + 1, self.iter_args_init, '(', ')');
        let end = at_blank + 1 + list.len();
        Grammar::stands_char(s, end, seq![' '], 0);
        assert(Grammar::spaces(s, end) == Grammar::spaces(s, end + 1));
        assert(end + 1 == self.text().len());
    }
}

impl NDForNames {
    /// Are the names identifiers?
    pub open spec fn are_identifiers(self) -> bool {
        &&& Grammar::are_identifiers(self.lower_bounds)
        &&& Grammar::are_identifiers(self.upper_bounds)
        &&& Grammar::are_identifiers(self.steps)
    }

    /// The names in a loop over several dimensions are read as they were written, whatever
    /// stands behind them; the region is then looked for behind the white space that follows.
    #[verifier::rlimit(60)]
    pub proof fn reads_what_was_written(self, rest: Seq<char>)
        requires
            self.are_identifiers(),
        ensures
            NDForSyntax::reading(self.text() + rest, 0) == Some(
                (self, Grammar::spaces(self.text() + rest, self.text().len() as int)),
            ),
    {
        let s = self.text() + rest;
        reveal_strlit("[");
        reveal_strlit("] to [");
        reveal_strlit(" to ");
        reveal_strlit("to");
        reveal_strlit("] step [");
        reveal_strlit(" step ");
        reveal_strlit("step");
        reveal_strlit("] ");
        let lowers = seq!['['] + (Grammar::joined(self.lower_bounds) + seq![']']);
        let uppers = seq!['['] + (Grammar::joined(self.upper_bounds) + seq![']']);
        let steps = seq!['['] + (Grammar::joined(self.steps) + seq![']']);
        let tail_3 = steps + seq![' '];
        let tail_2 = " step "@ + tail_3;
        let tail_1 = uppers + tail_2;
        let tail_0 = " to "@ + tail_1;
        assert(self.text() =~= lowers + tail_0);
        Grammar::stands_first(self.text(), rest);
        Grammar::stands_apart(s, 0, lowers, tail_0);
        let at_to = lowers.len() as int;
        Grammar::stands_apart(s, at_to, " to "@, tail_1);
        let at_uppers = at_to + 4;
        Grammar::stands_apart(s, at_uppers, uppers, tail_2);
        let at_step = at_uppers + uppers.len();
        Grammar::stands_apart(s, at_step, " step "@, tail_3);
        let at_steps = at_step + 6;
        Grammar::stands_apart(s, at_steps, steps, seq![' ']);
        Grammar::stands_char(s, at_uppers, uppers, 0);
        Grammar::stands_char(s, at_steps, steps, 0);
        Grammar::reads_list(s, 0, self.lower_bounds, '[', ']');
        assert(" to "@ =~= seq![' '] + ("to"@ + seq![' ']));
        Grammar::reads_spaced(s, at_to, " to "@, "to"@);
        Grammar::reads_list(s, at_uppers, self.upper_bounds, '[', ']');
        assert(" step "@ =~= seq![' '] + ("step"@ + seq![' ']));
        Grammar::reads_spaced(s, at_step, " step "@, "step"@);
        Grammar::reads_list(s, at_steps, self.steps, '[', ']');
        let end = at_steps + steps.len();
        Grammar::stands_char(s, end, seq![' '], 0);
        assert(Grammar::spaces(s, end) == Grammar::spaces(s, end + 1));
        assert(end + 1 == self.text().len());
    }
}

impl Grammar {
    /// A block name and the list of names behind it are read where they stand.
    proof fn reads_destination(
        s: Seq<char>,
        i: int,
        dest: Seq<char>,
        opds: Seq<Seq<char>>,
    )
        requires
            Grammar::is_identifier(dest),
            Grammar::are_identifiers(opds),
            Grammar::stands(s, Grammar::spaces(s, i), CondBrNames::destination(dest, opds)),
        ensures
            Grammar::destination(s, i) == Some(
                (
                    dest,
                    opds,
                    Grammar::spaces(s, i) + 1 + dest.len() + Grammar::joined(opds).len() + 2,
                ),
            ),
    {
        reveal(CondBrNames::destination);
        reveal_strlit("^");
        let at = Grammar::spaces(s, i);
        let list = seq!['('] + (Grammar::joined(opds) + seq![')']);
        Grammar::stands_apart(s, at, "^"@, dest + list);
        Grammar::reads_literal(s, at, "^"@);
        Grammar::stands_apart(s, at + 1, dest, list);
        let end = at + 1 + dest.len();
        Grammar::stands_char(s, end, list, 0);
        Grammar::reads_identifier(s, at + 1, dest);
        assert(Grammar::spaces(s, end) == end);
        Grammar::reads_list(s, end, opds, '(', ')');
    }
}

impl CondBrNames {
    /// Are the names identifiers?
    pub open spec fn are_identifiers(self) -> bool {
        &&& Grammar::is_identifier(self.condition)
        &&& Grammar::is_identifier(self.true_dest)
        &&& Grammar::are_identifiers(self.true_dest_opds)
        &&& Grammar::is_identifier(self.false_dest)
        &&& Grammar::are_identifiers(self.false_dest_opds)
    }

    /// A target and the values that are forwarded to it.
    #[verifier::opaque]
    spec fn destination(dest: Seq<char>, opds: Seq<Seq<char>>) -> Seq<char> {
        "^"@ + (dest + (seq!['('] + (Grammar::joined(opds) + seq![')'])))
    }

    /// A target begins with a caret.
    proof fn destination_begins(dest: Seq<char>, opds: Seq<Seq<char>>)
        ensures
            CondBrNames::destination(dest, opds).len() == dest.len() + Grammar::joined(opds).len()
                + 3,
            CondBrNames::destination(dest, opds)[0] == '^',
    {
        reveal(CondBrNames::destination);
        reveal_strlit("^");
    }

    /// The parts of a conditional branch.
    proof fn parts(self)
        ensures
            self.text() == "if "@ + (self.condition + (seq![' '] + (CondBrNames::destination(
                self.true_dest,
                self.true_dest_opds,
            ) + (" else "@ + CondBrNames::destination(self.false_dest, self.false_dest_opds))))),
    {
        reveal(CondBrNames::destination);
        reveal_strlit(" ^");
        reveal_strlit("^");
        reveal_strlit("(");
        reveal_strlit(") else ^");
        reveal_strlit(" else ");
        reveal_strlit(")");
        let first = self.true_dest + seq!['('] + Grammar::joined(self.true_dest_opds);
        let second = self.false_dest + seq!['('] + Grammar::joined(self.false_dest_opds);
        assert(CondBrNames::destination(self.true_dest, self.true_dest_opds) =~= "^"@ + first
            + seq![')']);
        assert(CondBrNames::destination(self.false_dest, self.false_dest_opds) =~= "^"@ + second
            + seq![')']);
        assert(self.text() =~= "if "@ + self.condition + " ^"@ + first + ") else ^"@ + second
            + ")"@);
    }

    /// The names in a conditional branch are read as they were written, whatever stands behind
    /// them, and nothing else is read.
    #[verifier::rlimit(60)]
    pub proof fn reads_what_was_written(self, rest: Seq<char>)
        requires
            self.are_identifiers(),
        ensures
            CondBrSyntax::reading(self.text() + rest, 0) == Some((self, self.text().len() as int)),
    {
        Grammar::stands_first(self.text(), rest);
        self.reads_from_start(self.text() + rest);
    }

    /// The names in a conditional branch are read where they stand.
    proof fn reads_from_start(self, s: Seq<char>)
        requires
            self.are_identifiers(),
            Grammar::stands(s, 0, self.text()),
        ensures
            CondBrSyntax::reading(s, 0) == Some((self, self.text().len() as int)),
    {
        let first = CondBrNames::destination(self.true_dest, self.true_dest_opds);
        let second = CondBrNames::destination(self.false_dest, self.false_dest_opds);
        let tail_3 = " else "@ + second;
        let tail_2 = first + tail_3;
        let tail_1 = seq![' '] + tail_2;
        let tail_0 = self.condition + tail_1;
        self.parts();
        Grammar::stands_apart(s, 0, "if "@, tail_0);
        reveal_strlit("if ");
        reveal_strlit("if");
        reveal_strlit(" else ");
        reveal_strlit("else");
        CondBrNames::destination_begins(self.true_dest, self.true_dest_opds);
        CondBrNames::destination_begins(self.false_dest, self.false_dest_opds);
        Grammar::stands_apart(s, 3, self.condition, tail_1);
        let at_blank = 3int + self.condition.len();
        Grammar::stands_apart(s, at_blank, seq![' '], tail_2);
        Grammar::stands_apart(s, at_blank + 1, first, tail_3);
        let at_else = at_blank + 1 + first.len();
        Grammar::stands_apart(s, at_else, " else "@, second);
        let at_second = at_else + 6;

        Grammar::stands_char(s, 0, "if "@, 0);
        Grammar::stands_char(s, 0, "if "@, 2);
        Grammar::stands_char(s, 3, self.condition, 0);
        assert("if "@ =~= "if"@ + seq![' ']);
        Grammar::stands_apart(s, 0, "if"@, seq![' ']);
        Grammar::reads_literal(s, 0, "if"@);
        assert(Grammar::spaces(s, 0) == 0);
        assert(Grammar::spaces(s, 3) == 3);
        assert(Grammar::spaces(s, 2) == 3);
        assert(Grammar::spaced(s, 0, "if"@) == Some(3int));

        Grammar::stands_char(s, at_blank, seq![' '], 0);
        Grammar::reads_identifier(s, 3, self.condition);
        Grammar::stands_char(s, at_blank + 1, first, 0);
        assert(Grammar::spaces(s, at_blank + 1) == at_blank + 1);
        assert(Grammar::spaces(s, at_blank) == at_blank + 1);
        Grammar::reads_destination(s, at_blank, self.true_dest, self.true_dest_opds);

        Grammar::stands_char(s, at_second, second, 0);
        assert(" else "@ =~= seq![' '] + ("else"@ + seq![' ']));
        Grammar::reads_spaced(s, at_else, " else "@, "else"@);

        assert(Grammar::spaces(s, at_second) == at_second);
        Grammar::reads_destination(s, at_second, self.false_dest, self.false_dest_opds);
    }
}

impl TypeListSyntax {
    /// A list of types.
    pub open spec fn text(types: Seq<Seq<char>>) -> Seq<char> {
        "-> ("@ + Grammar::joined(types) + ") "@
    }

    /// Where in a list of types the one at `k` begins.
    pub open spec fn type_at(types: Seq<Seq<char>>, k: int) -> int {
        if k == 0 {
            4
        } else {
            6 + Grammar::joined(types.take(k)).len() as int
        }
    }

    /// Can these be told from the white space and the parenthesis around them?
    pub open spec fn are_types(types: Seq<Seq<char>>) -> bool {
        forall|k: int|
            0 <= k < types.len() ==> (#[trigger] types[k]).len() > 0 && !Grammar::is_space(
                types[k][0],
            ) && types[k][0] != ')'
    }

    /// Joined texts can be taken apart before any of them.
    proof fn joined_apart(types: Seq<Seq<char>>, k: int)
        requires
            0 < k < types.len(),
        ensures
            Grammar::joined(types) == Grammar::joined(types.take(k)) + (", "@ + Grammar::joined(
                types.skip(k),
            )),
        decreases types.len(),
    {
        let front = types.drop_last();
        let back = types.skip(k);
        if k == types.len() - 1 {
            assert(types.take(k) =~= front);
            assert(back.len() == 1 && back[0] == types.last());
            assert(Grammar::joined(types) =~= Grammar::joined(types.take(k)) + (", "@
                + Grammar::joined(back)));
        } else {
            TypeListSyntax::joined_apart(front, k);
            assert(front.take(k) =~= types.take(k));
            assert(back.drop_last() =~= front.skip(k));
            assert(back.last() == types.last());
            assert(Grammar::joined(types) =~= Grammar::joined(types.take(k)) + (", "@
                + Grammar::joined(back)));
        }
    }

    /// The types from the one at `k` on stand where that begins.
    proof fn rest_stands(s: Seq<char>, types: Seq<Seq<char>>, k: int)
        requires
            Grammar::stands(s, 0, TypeListSyntax::text(types)),
            0 <= k < types.len(),
        ensures
            Grammar::stands(
                s,
                TypeListSyntax::type_at(types, k),
                Grammar::joined(types.skip(k)) + ") "@,
            ),
    {
        reveal_strlit("-> (");
        reveal_strlit(", ");
        let all = Grammar::joined(types);
        assert(TypeListSyntax::text(types) =~= "-> ("@ + (all + ") "@));
        Grammar::stands_apart(s, 0, "-> ("@, all + ") "@);
        if k == 0 {
            assert(types.skip(0) =~= types);
        } else {
            let front = Grammar::joined(types.take(k));
            let back = Grammar::joined(types.skip(k));
            TypeListSyntax::joined_apart(types, k);
            assert(all + ") "@ =~= front + (", "@ + (back + ") "@)));
            Grammar::stands_apart(s, 4, front, ", "@ + (back + ") "@));
            Grammar::stands_apart(s, 4 + front.len() as int, ", "@, back + ") "@);
        }
    }

    /// A list of types is taken apart as it was put together, whatever stands behind it: each of
    /// the types begins where it is looked for, and what is behind the list is looked for behind
    /// the white space that follows.
    #[verifier::rlimit(60)]
    pub proof fn reads_what_was_written(types: Seq<Seq<char>>, rest: Seq<char>)
        requires
            TypeListSyntax::are_types(types),
        ensures
            ({
                let s = TypeListSyntax::text(types) + rest;
                let n = types.len() as int;
                let end = TypeListStep::End(
                    Grammar::spaces(s, TypeListSyntax::text(types).len() as int) as usize,
                );
                &&& TypeListSyntax::beginning(s, 0) == if n == 0 {
                    end
                } else {
                    TypeListStep::TypeAt(TypeListSyntax::type_at(types, 0) as usize)
                }
                &&& forall|k: int|
                    0 <= k < n ==> {
                        let at = #[trigger] TypeListSyntax::type_at(types, k);
                        &&& s.subrange(at, at + types[k].len()) == types[k]
                        &&& TypeListSyntax::going_on(s, at + types[k].len()) == if k + 1 == n {
                            end
                        } else {
                            TypeListStep::TypeAt(TypeListSyntax::type_at(types, k + 1) as usize)
                        }
                    }
            }),
    {
        let text = TypeListSyntax::text(types);
        let s = text + rest;
        let n = types.len() as int;
        let all = Grammar::joined(types);
        reveal_strlit("-> (");
        reveal_strlit("->");
        reveal_strlit(", ");
        reveal_strlit(") ");
        Grammar::stands_first(text, rest);
        assert(text =~= "-> ("@ + (all + ") "@));
        Grammar::stands_apart(s, 0, "-> ("@, all + ") "@);
        Grammar::stands_apart(s, 4, all, ") "@);
        Grammar::stands_char(s, 0, "-> ("@, 0);
        Grammar::stands_char(s, 0, "-> ("@, 1);
        Grammar::stands_char(s, 0, "-> ("@, 2);
        Grammar::stands_char(s, 0, "-> ("@, 3);
        let close = 4 + all.len() as int;
        Grammar::stands_char(s, close, ") "@, 0);
        Grammar::stands_char(s, close, ") "@, 1);
        assert(text.len() == close + 2);
        assert(Grammar::spaces(s, close + 1) == Grammar::spaces(s, close + 2));
        assert("-> ("@ =~= "->"@ + seq![' ', '(']);
        Grammar::stands_apart(s, 0, "->"@, seq![' ', '(']);
        Grammar::reads_literal(s, 0, "->"@);
        assert(Grammar::spaces(s, 0) == 0);
        assert(Grammar::spaces(s, 3) == 3);
        assert(Grammar::spaces(s, 2) == 3);
        assert(Grammar::spaced(s, 0, "->"@) == Some(3int));
        if n == 0 {
            assert(Grammar::spaces(s, 4) == 4);
        } else {
            TypeListSyntax::one_stands(s, types, 0);
            Grammar::stands_char(s, 4, types[0], 0);
            assert(Grammar::spaces(s, 4) == 4);
        }
        assert forall|k: int| 0 <= k < n implies {
            let at = #[trigger] TypeListSyntax::type_at(types, k);
            &&& s.subrange(at, at + types[k].len()) == types[k]
            &&& TypeListSyntax::going_on(s, at + types[k].len()) == if k + 1 == n {
                TypeListStep::End(Grammar::spaces(s, text.len() as int) as usize)
            } else {
                TypeListStep::TypeAt(TypeListSyntax::type_at(types, k + 1) as usize)
            }
        } by {
            let at = TypeListSyntax::type_at(types, k);
            let behind = at + types[k].len();
            TypeListSyntax::one_stands(s, types, k);
            assert(s.subrange(at, behind) == types[k]) by {
                reveal(Grammar::stands);
            }
            if k + 1 < n {
                Grammar::stands_char(s, behind, ", "@, 0);
                Grammar::stands_char(s, behind, ", "@, 1);
                TypeListSyntax::one_stands(s, types, k + 1);
                Grammar::stands_char(s, behind + 2, types[k + 1], 0);
                assert(Grammar::spaces(s, behind) == behind);
                assert(Grammar::spaces(s, behind + 2) == behind + 2);
                assert(Grammar::spaces(s, behind + 1) == behind + 2);
            } else {
                assert(Grammar::spaces(s, behind) == behind);
            }
        }
    }

    /// A type of the list stands where it begins, with a comma or the end of the list behind it,
    /// and the next one begins behind that comma.
    pub(crate) proof fn one_stands(s: Seq<char>, types: Seq<Seq<char>>, k: int)
        requires
            Grammar::stands(s, 0, TypeListSyntax::text(types)),
            0 <= k < types.len(),
        ensures
            ({
                let at = TypeListSyntax::type_at(types, k);
                let behind = at + types[k].len();
                &&& Grammar::stands(s, at, types[k])
                &&& k + 1 < types.len() ==> Grammar::stands(s, behind, ", "@)
                    && TypeListSyntax::type_at(types, k + 1) == behind + 2
                &&& k + 1 == types.len() ==> behind == 4 + Grammar::joined(types).len()
            }),
    {
        reveal_strlit(", ");
        let at = TypeListSyntax::type_at(types, k);
        let back = types.skip(k);
        TypeListSyntax::rest_stands(s, types, k);
        let upto = types.take(k + 1);
        assert(upto.drop_last() =~= types.take(k));
        assert(upto.last() == types[k]);
        if k > 0 {
            assert(upto.len() > 1);
            assert(Grammar::joined(upto) == Grammar::joined(types.take(k)) + ", "@ + types[k]);
        } else {
            assert(upto.len() == 1 && upto[0] == types[0]);
            assert(Grammar::joined(upto) == types[0]);
        }
        if k + 1 < types.len() {
            Grammar::joined_front(back);
            let after = Grammar::joined(back.skip(1)) + ") "@;
            assert(Grammar::joined(back) + ") "@ =~= types[k] + (", "@ + after));
            Grammar::stands_apart(s, at, types[k], ", "@ + after);
            Grammar::stands_apart(s, at + types[k].len(), ", "@, after);
        } else {
            assert(back.len() == 1 && back[0] == types[k]);
            assert(upto =~= types);
            Grammar::stands_apart(s, at, types[k], ") "@);
        }
    }
}

} // verus!
