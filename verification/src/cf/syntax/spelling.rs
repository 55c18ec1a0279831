//! What is read is, but for the white space in it, what is written for it.

use crate::cf::syntax::grammar::Grammar;
use crate::cf::syntax::reading::{
    CondBrNames, CondBrSyntax, ForNames, ForSyntax, NDForNames, NDForSyntax,
};
use vstd::prelude::*;

verus! {

impl Grammar {
    /// The text without the white space in it.
    #[verifier::opaque]
    pub open spec fn bare(text: Seq<char>) -> Seq<char>
        decreases text.len(),
    {
        if text.len() == 0 {
            text
        } else if Grammar::is_space(text.last()) {
            Grammar::bare(text.drop_last())
        } else {
            Grammar::bare(text.drop_last()).push(text.last())
        }
    }

    /// Does what stands from `i` to `j`, but for white space, spell the text?
    pub open spec fn spells(s: Seq<char>, i: int, j: int, text: Seq<char>) -> bool {
        &&& 0 <= i <= j <= s.len()
        &&& Grammar::bare(s.subrange(i, j)) == Grammar::bare(text)
    }

    /// White space can be left out of each of two texts.
    proof fn bare_both(a: Seq<char>, b: Seq<char>)
        ensures
            Grammar::bare(a + b) == Grammar::bare(a) + Grammar::bare(b),
        decreases b.len(),
    {
        reveal(Grammar::bare);
        if b.len() == 0 {
            assert(a + b =~= a);
            assert(Grammar::bare(a) + b =~= Grammar::bare(a));
        } else {
            assert((a + b).drop_last() =~= a + b.drop_last());
            Grammar::bare_both(a, b.drop_last());
            assert(Grammar::bare(a + b) =~= Grammar::bare(a) + Grammar::bare(b));
        }
    }

    /// Without white space, a blank is nothing, and a text with a blank before or behind it is that
    /// text.
    proof fn bare_blank(text: Seq<char>)
        ensures
            Grammar::bare(seq![' ']).len() == 0,
            Grammar::bare(Seq::<char>::empty()).len() == 0,
            Grammar::bare(seq![' '] + text) == Grammar::bare(text),
            Grammar::bare(text + seq![' ']) == Grammar::bare(text),
    {
        let blank = seq![' '];
        reveal_with_fuel(Grammar::bare, 2);
        assert(blank.drop_last().len() == 0);
        Grammar::bare_both(blank, text);
        Grammar::bare_both(text, blank);
        assert(Grammar::bare(blank) + Grammar::bare(text) =~= Grammar::bare(text));
        assert(Grammar::bare(text) + Grammar::bare(blank) =~= Grammar::bare(text));
    }

    /// What spells one text, followed by what spells another, spells both.
    proof fn spells_on(s: Seq<char>, i: int, j: int, k: int, a: Seq<char>, b: Seq<char>)
        requires
            Grammar::spells(s, i, j, a),
            Grammar::spells(s, j, k, b),
        ensures
            Grammar::spells(s, i, k, a + b),
    {
        assert(s.subrange(i, k) =~= s.subrange(i, j) + s.subrange(j, k));
        Grammar::bare_both(s.subrange(i, j), s.subrange(j, k));
        Grammar::bare_both(a, b);
    }

    /// White space spells nothing, and is passed over to its end.
    pub proof fn spaces_spell_nothing(s: Seq<char>, i: int)
        requires
            0 <= i <= s.len(),
        ensures
            Grammar::spells(s, i, Grammar::spaces(s, i), Seq::empty()),
            forall|k: int| i <= k < Grammar::spaces(s, i) ==> Grammar::is_space(#[trigger] s[k]),
            Grammar::spaces(s, i) < s.len() ==> !Grammar::is_space(s[Grammar::spaces(s, i)]),
        decreases s.len() - i,
    {
        Grammar::spaces_range(s, i);
        let end = Grammar::spaces(s, i);
        if i == s.len() || !Grammar::is_space(s[i]) {
            assert(s.subrange(i, i) =~= Seq::<char>::empty());
        } else {
            Grammar::spaces_spell_nothing(s, i + 1);
            let one = s.subrange(i, i + 1);
            assert(one =~= seq![s[i]]);
            assert(Grammar::bare(one).len() == 0) by {
                reveal_with_fuel(Grammar::bare, 2);
                assert(one.drop_last().len() == 0);
            }
            let none: Seq<char> = Seq::empty();
            assert(Grammar::bare(one) =~= Grammar::bare(none)) by {
                reveal(Grammar::bare);
            }
            Grammar::spells_on(s, i, i + 1, end, none, none);
            assert(none + none =~= none);
        }
    }

    /// A word goes on as long as there are letters, digits and underscores.
    pub proof fn word_is_whole(s: Seq<char>, i: int)
        requires
            0 <= i <= s.len(),
        ensures
            Grammar::word_end(s, i) < s.len() ==> !Grammar::is_word_char(
                s[Grammar::word_end(s, i)],
            ),
        decreases s.len() - i,
    {
        Grammar::word_end_range(s, i);
        if i < s.len() && Grammar::is_word_char(s[i]) {
            Grammar::word_is_whole(s, i + 1);
        }
    }

    /// What is read of a given text is that text.
    pub proof fn literal_spells(s: Seq<char>, i: int, text: Seq<char>)
        requires
            Grammar::literal(s, i, text) is Some,
        ensures
            Grammar::spells(s, i, Grammar::literal(s, i, text)->0, text),
            s.subrange(i, Grammar::literal(s, i, text)->0) == text,
    {
    }

    /// What is read of a given text with white space around it spells that text.
    pub proof fn spaced_spells(s: Seq<char>, i: int, text: Seq<char>)
        requires
            0 <= i <= s.len(),
            Grammar::spaced(s, i, text) is Some,
        ensures
            Grammar::spells(s, i, Grammar::spaced(s, i, text)->0, text),
    {
        let a = Grammar::spaces(s, i);
        Grammar::spaces_range(s, i);
        Grammar::spaces_spell_nothing(s, i);
        Grammar::literal_spells(s, a, text);
        let b = Grammar::literal(s, a, text)->0;
        Grammar::spaces_spell_nothing(s, b);
        Grammar::spaces_range(s, b);
        let none: Seq<char> = Seq::empty();
        Grammar::spells_on(s, i, a, b, none, text);
        assert(none + text =~= text);
        Grammar::spells_on(s, i, b, Grammar::spaces(s, b), text, none);
        assert(text + none =~= text);
    }

    /// What is read of an identifier is an identifier, and is all of it.
    pub proof fn identifier_spells(s: Seq<char>, i: int)
        requires
            Grammar::identifier(s, i) is Some,
        ensures
            ({
                let (name, end) = Grammar::identifier(s, i)->0;
                &&& Grammar::is_identifier(name)
                &&& Grammar::spells(s, i, end, name)
                &&& s.subrange(i, end) == name
                &&& i < end <= s.len()
                &&& end < s.len() ==> !Grammar::is_word_char(s[end])
            }),
    {
        Grammar::word_end_range(s, i);
        Grammar::word_is_whole(s, i);
        let (name, end) = Grammar::identifier(s, i)->0;
        assert forall|k: int| 0 <= k < name.len() implies Grammar::is_word_char(
            #[trigger] name[k],
        ) by {
            assert(name[k] == s[i + k]);
        }
        assert(name[0] == s[i]);
    }

    /// What is read of identifiers with commas between them are identifiers, and they spell what
    /// was read.
    pub proof fn identifiers_spell(s: Seq<char>, i: int)
        requires
            Grammar::identifiers(s, i) is Some,
        ensures
            ({
                let (names, end) = Grammar::identifiers(s, i)->0;
                &&& names.len() > 0
                &&& Grammar::are_identifiers(names)
                &&& Grammar::spells(s, i, end, Grammar::joined(names))
            }),
        decreases s.len() - i,
    {
        let (name, name_end) = Grammar::identifier(s, i)->0;
        Grammar::identifier_spells(s, i);
        let comma = Grammar::spaces(s, name_end);
        Grammar::spaces_range(s, name_end);
        Grammar::spaces_spell_nothing(s, name_end);
        let none: Seq<char> = Seq::empty();
        Grammar::spells_on(s, i, name_end, comma, name, none);
        assert(name + none =~= name);
        if comma < s.len() && s[comma] == ',' {
            let next = Grammar::spaces(s, comma + 1);
            Grammar::spaces_range(s, comma + 1);
            Grammar::spaces_spell_nothing(s, comma + 1);
            Grammar::identifiers_spell(s, next);
            let (rest, end) = Grammar::identifiers(s, next)->0;
            assert(s.subrange(comma, comma + 1) =~= seq![',']);
            Grammar::spells_on(s, comma, comma + 1, next, seq![','], none);
            assert(seq![','] + none =~= seq![',']);
            Grammar::spells_on(s, i, comma, next, name, seq![',']);
            Grammar::spells_on(s, i, next, end, name + seq![','], Grammar::joined(rest));
            let names = seq![name] + rest;
            Grammar::joined_together(seq![name], rest);
            reveal_strlit(", ");
            assert(", "@ =~= seq![','] + seq![' ']);
            Grammar::bare_blank(seq![',']);
            Grammar::bare_both(name + seq![','], Grammar::joined(rest));
            Grammar::bare_both(name, seq![',']);
            Grammar::bare_both(name + ", "@, Grammar::joined(rest));
            Grammar::bare_both(name, ", "@);
            assert forall|k: int| 0 <= k < names.len() implies Grammar::is_identifier(
                #[trigger] names[k],
            ) by {
                if k > 0 {
                    assert(names[k] == rest[k - 1]);
                }
            }
        } else {
            Grammar::joined_together(seq![name], Seq::empty());
            let (names, _) = Grammar::identifiers(s, i)->0;
            assert(names =~= seq![name]);
        }
    }

    /// What is read of a list are identifiers, and they spell, with the brackets around them, what
    /// was read.
    pub proof fn list_spells(s: Seq<char>, i: int, open: char, close: char)
        requires
            Grammar::list(s, i, open, close) is Some,
        ensures
            ({
                let (names, end) = Grammar::list(s, i, open, close)->0;
                &&& Grammar::are_identifiers(names)
                &&& i + 1 < end
                &&& Grammar::spells(
                    s,
                    i,
                    end,
                    seq![open] + Grammar::joined(names) + seq![close],
                )
            }),
    {
        let (names, end) = Grammar::list(s, i, open, close)->0;
        let first = Grammar::spaces(s, i + 1);
        Grammar::spaces_range(s, i + 1);
        Grammar::spaces_spell_nothing(s, i + 1);
        let none: Seq<char> = Seq::empty();
        assert(s.subrange(i, i + 1) =~= seq![open]);
        Grammar::spells_on(s, i, i + 1, first, seq![open], none);
        assert(seq![open] + none =~= seq![open]);
        let last = end - 1;
        if Grammar::identifier(s, first) is None {
            assert(names.len() == 0);
            Grammar::joined_together(names, Seq::empty());
            assert(Grammar::joined(names) =~= none);
            assert(seq![open] + Grammar::joined(names) =~= seq![open]);
        } else {
            Grammar::identifiers_spell(s, first);
            Grammar::spells_on(s, i, first, last, seq![open], Grammar::joined(names));
        }
        assert(s.subrange(last, end) =~= seq![close]);
        Grammar::spells_on(
            s,
            i,
            last,
            end,
            seq![open] + Grammar::joined(names),
            seq![close],
        );
    }
}

impl ForNames {
    /// The text without white space.
    proof fn bare_text(self)
        ensures
            Grammar::bare(self.text()) == Grammar::bare(self.lower_bound) + Grammar::bare("to"@)
                + Grammar::bare(self.upper_bound) + Grammar::bare("step"@) + Grammar::bare(self.step)
                + Grammar::bare(seq!['('] + Grammar::joined(self.iter_args_init) + seq![')']),
    {
        let list = Grammar::joined(self.iter_args_init);
        let a = self.lower_bound + " to "@;
        let b = a + self.upper_bound;
        let c = b + " step "@;
        let d = c + self.step;
        let e = d + " ("@;
        let f = e + list;
        Grammar::bare_both(self.lower_bound, " to "@);
        Grammar::bare_both(a, self.upper_bound);
        Grammar::bare_both(b, " step "@);
        Grammar::bare_both(c, self.step);
        Grammar::bare_both(d, " ("@);
        Grammar::bare_both(e, list);
        Grammar::bare_both(f, ") "@);
        Grammar::bare_both(seq!['('], list);
        Grammar::bare_both(seq!['('] + list, seq![')']);
        reveal_strlit(" to ");
        reveal_strlit("to");
        reveal_strlit(" step ");
        reveal_strlit("step");
        reveal_strlit(" (");
        reveal_strlit(") ");
        assert(" to "@ =~= seq![' '] + ("to"@ + seq![' ']));
        assert(" step "@ =~= seq![' '] + ("step"@ + seq![' ']));
        assert(" ("@ =~= seq![' '] + seq!['(']);
        assert(") "@ =~= seq![')'] + seq![' ']);
        Grammar::bare_blank("to"@ + seq![' ']);
        Grammar::bare_blank("to"@);
        Grammar::bare_blank("step"@ + seq![' ']);
        Grammar::bare_blank("step"@);
        Grammar::bare_blank(seq!['(']);
        Grammar::bare_blank(seq![')']);
        let x = Grammar::bare(d);
        let (p, q, r) = (Grammar::bare(seq!['(']), Grammar::bare(list), Grammar::bare(seq![')']));
        assert(x + p + q + r =~= x + (p + q + r));
    }

    /// What is read of a loop are identifiers, and what is written for them spells what was read.
    pub proof fn read_spells(s: Seq<char>, i: int)
        requires
            ForSyntax::reading(s, i) is Some,
        ensures
            ({
                let (names, end) = ForSyntax::reading(s, i)->0;
                &&& names.are_identifiers()
                &&& Grammar::spells(s, i, end, names.text())
                &&& end < s.len() ==> !Grammar::is_space(s[end])
            }),
    {
        let (names, end) = ForSyntax::reading(s, i)->0;
        let none: Seq<char> = Seq::empty();
        Grammar::identifier_spells(s, i);
        let (lower, i1) = Grammar::identifier(s, i)->0;
        Grammar::spaced_spells(s, i1, "to"@);
        let i2 = Grammar::spaced(s, i1, "to"@)->0;
        Grammar::identifier_spells(s, i2);
        let (upper, i3) = Grammar::identifier(s, i2)->0;
        Grammar::spaced_spells(s, i3, "step"@);
        let i4 = Grammar::spaced(s, i3, "step"@)->0;
        Grammar::identifier_spells(s, i4);
        let (step, i5) = Grammar::identifier(s, i4)->0;
        let i6 = Grammar::spaces(s, i5);
        Grammar::spaces_range(s, i5);
        Grammar::spaces_spell_nothing(s, i5);
        Grammar::list_spells(s, i6, '(', ')');
        let (inits, i7) = Grammar::list(s, i6, '(', ')')->0;
        let list = seq!['('] + Grammar::joined(inits) + seq![')'];
        Grammar::spaces_spell_nothing(s, i7);
        Grammar::spaces_range(s, i7);
        let a = lower + "to"@;
        let b = a + upper;
        let c = b + "step"@;
        let d = c + step;
        let e = d + none;
        let f = e + list;
        Grammar::spells_on(s, i, i1, i2, lower, "to"@);
        Grammar::spells_on(s, i, i2, i3, a, upper);
        Grammar::spells_on(s, i, i3, i4, b, "step"@);
        Grammar::spells_on(s, i, i4, i5, c, step);
        Grammar::spells_on(s, i, i5, i6, d, none);
        Grammar::spells_on(s, i, i6, i7, e, list);
        Grammar::spells_on(s, i, i7, end, f, none);
        names.bare_text();
        Grammar::bare_both(lower, "to"@);
        Grammar::bare_both(a, upper);
        Grammar::bare_both(b, "step"@);
        Grammar::bare_both(c, step);
        assert(e =~= d);
        Grammar::bare_both(d, list);
        assert(f + none =~= f);
    }
}

impl NDForNames {
    /// The text without white space.
    proof fn bare_text(self)
        ensures
            Grammar::bare(self.text()) == Grammar::bare(
                seq!['['] + Grammar::joined(self.lower_bounds) + seq![']'],
            ) + Grammar::bare("to"@) + Grammar::bare(
                seq!['['] + Grammar::joined(self.upper_bounds) + seq![']'],
            ) + Grammar::bare("step"@) + Grammar::bare(
                seq!['['] + Grammar::joined(self.steps) + seq![']'],
            ),
    {
        let (open, close) = (seq!['['], seq![']']);
        let l = Grammar::joined(self.lower_bounds);
        let u = Grammar::joined(self.upper_bounds);
        let t = Grammar::joined(self.steps);
        let a = "["@ + l;
        let b = a + "] to ["@;
        let c = b + u;
        let d = c + "] step ["@;
        let e = d + t;
        Grammar::bare_both("["@, l);
        Grammar::bare_both(a, "] to ["@);
        Grammar::bare_both(b, u);
        Grammar::bare_both(c, "] step ["@);
        Grammar::bare_both(d, t);
        Grammar::bare_both(e, "] "@);
        reveal_strlit("[");
        reveal_strlit("] to [");
        reveal_strlit("to");
        reveal_strlit("] step [");
        reveal_strlit("step");
        reveal_strlit("] ");
        assert("["@ =~= open);
        assert("] to ["@ =~= close + ((seq![' '] + ("to"@ + seq![' '])) + open));
        assert("] step ["@ =~= close + ((seq![' '] + ("step"@ + seq![' '])) + open));
        assert("] "@ =~= close + seq![' ']);
        Grammar::bare_blank("to"@ + seq![' ']);
        Grammar::bare_blank("to"@);
        Grammar::bare_blank("step"@ + seq![' ']);
        Grammar::bare_blank("step"@);
        Grammar::bare_blank(close);
        let to = seq![' '] + ("to"@ + seq![' ']);
        let step = seq![' '] + ("step"@ + seq![' ']);
        Grammar::bare_both(to, open);
        Grammar::bare_both(close, to + open);
        Grammar::bare_both(step, open);
        Grammar::bare_both(close, step + open);
        Grammar::bare_both(open, l);
        Grammar::bare_both(open + l, close);
        Grammar::bare_both(open, u);
        Grammar::bare_both(open + u, close);
        Grammar::bare_both(open, t);
        Grammar::bare_both(open + t, close);
        let (p, q) = (Grammar::bare(open), Grammar::bare(close));
        let (x, y, z) = (Grammar::bare(l), Grammar::bare(u), Grammar::bare(t));
        let (v, w) = (Grammar::bare("to"@), Grammar::bare("step"@));
        assert(p + x + (q + (v + p)) + y + (q + (w + p)) + z + q =~= (p + x + q) + v + (p + y + q)
            + w + (p + z + q));
    }

    /// What is read of a loop over several dimensions are identifiers, and what is written for them
    /// spells what was read.
    pub proof fn read_spells(s: Seq<char>, i: int)
        requires
            NDForSyntax::reading(s, i) is Some,
        ensures
            ({
                let (names, end) = NDForSyntax::reading(s, i)->0;
                &&& names.are_identifiers()
                &&& Grammar::spells(s, i, end, names.text())
                &&& end < s.len() ==> !Grammar::is_space(s[end])
            }),
    {
        let (names, end) = NDForSyntax::reading(s, i)->0;
        let none: Seq<char> = Seq::empty();
        Grammar::list_spells(s, i, '[', ']');
        let (lowers, i1) = Grammar::list(s, i, '[', ']')->0;
        Grammar::spaced_spells(s, i1, "to"@);
        let i2 = Grammar::spaced(s, i1, "to"@)->0;
        Grammar::list_spells(s, i2, '[', ']');
        let (uppers, i3) = Grammar::list(s, i2, '[', ']')->0;
        Grammar::spaced_spells(s, i3, "step"@);
        let i4 = Grammar::spaced(s, i3, "step"@)->0;
        Grammar::list_spells(s, i4, '[', ']');
        let (steps, i5) = Grammar::list(s, i4, '[', ']')->0;
        Grammar::spaces_spell_nothing(s, i5);
        Grammar::spaces_range(s, i5);
        let l = seq!['['] + Grammar::joined(lowers) + seq![']'];
        let u = seq!['['] + Grammar::joined(uppers) + seq![']'];
        let t = seq!['['] + Grammar::joined(steps) + seq![']'];
        let a = l + "to"@;
        let b = a + u;
        let c = b + "step"@;
        let d = c + t;
        Grammar::spells_on(s, i, i1, i2, l, "to"@);
        Grammar::spells_on(s, i, i2, i3, a, u);
        Grammar::spells_on(s, i, i3, i4, b, "step"@);
        Grammar::spells_on(s, i, i4, i5, c, t);
        Grammar::spells_on(s, i, i5, end, d, none);
        assert(d + none =~= d);
        names.bare_text();
        Grammar::bare_both(l, "to"@);
        Grammar::bare_both(a, u);
        Grammar::bare_both(b, "step"@);
        Grammar::bare_both(c, t);
    }
}

impl Grammar {
    /// What is read of a target spells a caret, the target and, in parentheses, the values that are
    /// forwarded to it.
    proof fn destination_spells(s: Seq<char>, i: int)
        requires
            0 <= i <= s.len(),
            Grammar::destination(s, i) is Some,
        ensures
            ({
                let (dest, opds, end) = Grammar::destination(s, i)->0;
                &&& Grammar::is_identifier(dest)
                &&& Grammar::are_identifiers(opds)
                &&& Grammar::spells(
                    s,
                    i,
                    end,
                    "^"@ + dest + (seq!['('] + Grammar::joined(opds) + seq![')']),
                )
                &&& s[end - 1] == ')'
            }),
    {
        let none: Seq<char> = Seq::empty();
        let i1 = Grammar::spaces(s, i);
        Grammar::spaces_range(s, i);
        Grammar::spaces_spell_nothing(s, i);
        Grammar::literal_spells(s, i1, "^"@);
        let i2 = Grammar::literal(s, i1, "^"@)->0;
        Grammar::identifier_spells(s, i2);
        let (dest, i3) = Grammar::identifier(s, i2)->0;
        let i4 = Grammar::spaces(s, i3);
        Grammar::spaces_range(s, i3);
        Grammar::spaces_spell_nothing(s, i3);
        Grammar::list_spells(s, i4, '(', ')');
        let (opds, end) = Grammar::list(s, i4, '(', ')')->0;
        let list = seq!['('] + Grammar::joined(opds) + seq![')'];
        Grammar::spells_on(s, i, i1, i2, none, "^"@);
        assert(none + "^"@ =~= "^"@);
        Grammar::spells_on(s, i, i2, i3, "^"@, dest);
        Grammar::spells_on(s, i, i3, i4, "^"@ + dest, none);
        assert("^"@ + dest + none =~= "^"@ + dest);
        Grammar::spells_on(s, i, i4, end, "^"@ + dest, list);
    }
}

impl CondBrNames {
    /// The text without white space.
    proof fn bare_text(self)
        ensures
            Grammar::bare(self.text()) == Grammar::bare("if"@) + Grammar::bare(self.condition)
                + Grammar::bare(
                "^"@ + self.true_dest + (seq!['('] + Grammar::joined(self.true_dest_opds) + seq![
                    ')',
                ]),
            ) + Grammar::bare("else"@) + Grammar::bare(
                "^"@ + self.false_dest + (seq!['('] + Grammar::joined(self.false_dest_opds) + seq![
                    ')',
                ]),
            ),
    {
        let (open, close) = (seq!['('], seq![')']);
        let t = Grammar::joined(self.true_dest_opds);
        let f = Grammar::joined(self.false_dest_opds);
        let a = "if "@ + self.condition;
        let b = a + " ^"@;
        let c = b + self.true_dest;
        let d = c + "("@;
        let e = d + t;
        let g = e + ") else ^"@;
        let h = g + self.false_dest;
        let k = h + "("@;
        let m = k + f;
        Grammar::bare_both("if "@, self.condition);
        Grammar::bare_both(a, " ^"@);
        Grammar::bare_both(b, self.true_dest);
        Grammar::bare_both(c, "("@);
        Grammar::bare_both(d, t);
        Grammar::bare_both(e, ") else ^"@);
        Grammar::bare_both(g, self.false_dest);
        Grammar::bare_both(h, "("@);
        Grammar::bare_both(k, f);
        Grammar::bare_both(m, ")"@);
        reveal_strlit("if ");
        reveal_strlit("if");
        reveal_strlit(" ^");
        reveal_strlit("^");
        reveal_strlit("(");
        reveal_strlit(") else ^");
        reveal_strlit("else");
        reveal_strlit(")");
        assert("if "@ =~= "if"@ + seq![' ']);
        assert(" ^"@ =~= seq![' '] + "^"@);
        assert("("@ =~= open);
        assert(")"@ =~= close);
        let other = seq![' '] + ("else"@ + seq![' ']);
        assert(") else ^"@ =~= close + (other + "^"@));
        Grammar::bare_blank("if"@);
        Grammar::bare_blank("^"@);
        Grammar::bare_blank("else"@ + seq![' ']);
        Grammar::bare_blank("else"@);
        Grammar::bare_both(other, "^"@);
        Grammar::bare_both(close, other + "^"@);
        Grammar::bare_both("^"@, self.true_dest);
        Grammar::bare_both("^"@ + self.true_dest, open + t + close);
        Grammar::bare_both(open + t, close);
        Grammar::bare_both(open, t);
        Grammar::bare_both("^"@, self.false_dest);
        Grammar::bare_both("^"@ + self.false_dest, open + f + close);
        Grammar::bare_both(open + f, close);
        Grammar::bare_both(open, f);
        let (p, q, r) = (Grammar::bare(open), Grammar::bare(close), Grammar::bare("^"@));
        let (u, v) = (Grammar::bare("if"@), Grammar::bare("else"@));
        let (x, y) = (Grammar::bare(t), Grammar::bare(f));
        let n = Grammar::bare(self.condition);
        let (td, fd) = (Grammar::bare(self.true_dest), Grammar::bare(self.false_dest));
        assert(u + n + r + td + p + x + (q + (v + r)) + fd + p + y + q =~= u + n + (r + td + (p + x
            + q)) + v + (r + fd + (p + y + q)));
    }

    /// What is read of a conditional branch are identifiers, and what is written for them spells what
    /// was read. Nothing is read behind the last parenthesis.
    pub proof fn read_spells(s: Seq<char>, i: int)
        requires
            0 <= i <= s.len(),
            CondBrSyntax::reading(s, i) is Some,
        ensures
            ({
                let (names, end) = CondBrSyntax::reading(s, i)->0;
                &&& names.are_identifiers()
                &&& Grammar::spells(s, i, end, names.text())
                &&& s[end - 1] == ')'
            }),
    {
        let (names, end) = CondBrSyntax::reading(s, i)->0;
        Grammar::spaced_spells(s, i, "if"@);
        let i1 = Grammar::spaced(s, i, "if"@)->0;
        Grammar::identifier_spells(s, i1);
        let (condition, i2) = Grammar::identifier(s, i1)->0;
        Grammar::destination_spells(s, i2);
        let (true_dest, t, i3) = Grammar::destination(s, i2)->0;
        Grammar::spaced_spells(s, i3, "else"@);
        let i4 = Grammar::spaced(s, i3, "else"@)->0;
        Grammar::destination_spells(s, i4);
        let (false_dest, f, i5) = Grammar::destination(s, i4)->0;
        let to = "^"@ + true_dest + (seq!['('] + Grammar::joined(t) + seq![')']);
        let fo = "^"@ + false_dest + (seq!['('] + Grammar::joined(f) + seq![')']);
        let a = "if"@ + condition;
        let b = a + to;
        let c = b + "else"@;
        Grammar::spells_on(s, i, i1, i2, "if"@, condition);
        Grammar::spells_on(s, i, i2, i3, a, to);
        Grammar::spells_on(s, i, i3, i4, b, "else"@);
        Grammar::spells_on(s, i, i4, i5, c, fo);
        names.bare_text();
        Grammar::bare_both("if"@, condition);
        Grammar::bare_both(a, to);
        Grammar::bare_both(b, "else"@);
        Grammar::bare_both(c, fo);
    }
}

} // verus!
