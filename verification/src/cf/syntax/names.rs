//! The names that operations give.

use crate::cf::ops::ForOp;
use crate::cf::syntax::grammar::Grammar;
use crate::ir::model::Ir;
use crate::ir::text::Text;
use crate::ir::types::Value;
use vstd::prelude::*;

verus! {

impl Grammar {
    /// The digits of a number are word characters.
    proof fn decimal_is_word(n: nat)
        ensures
            forall|i: int|
                0 <= i < Text::decimal(n).len() ==> Grammar::is_word_char(
                    #[trigger] Text::decimal(n)[i],
                ),
        decreases n,
    {
        reveal_strlit("0123456789");
        assert(Grammar::is_word_char(Text::digit(n % 10)));
        if n >= 10 {
            Grammar::decimal_is_word(n / 10);
            let front = Text::decimal(n / 10);
            assert forall|i: int| 0 <= i < Text::decimal(n).len() implies Grammar::is_word_char(
                #[trigger] Text::decimal(n)[i],
            ) by {
                if i < front.len() {
                    assert(Grammar::is_word_char(front[i]));
                }
            }
        }
    }

    /// An identifier with word characters behind it is an identifier.
    proof fn prolonged(name: Seq<char>, more: Seq<char>)
        requires
            Grammar::is_identifier(name),
            forall|i: int| 0 <= i < more.len() ==> Grammar::is_word_char(#[trigger] more[i]),
        ensures
            Grammar::is_identifier(name + more),
    {
        let whole = name + more;
        assert forall|i: int| 0 <= i < whole.len() implies Grammar::is_word_char(
            #[trigger] whole[i],
        ) by {
            if i < name.len() {
                assert(whole[i] == name[i]);
            } else {
                assert(whole[i] == more[i - name.len()]);
            }
        }
    }

    /// The labels of the blocks that are made, and the name of the induction variable, are
    /// identifiers.
    pub proof fn fixed_names_are_identifiers()
        ensures
            Grammar::is_identifier("entry"@),
            Grammar::is_identifier("for_op_header"@),
            Grammar::is_identifier("iv"@),
    {
        reveal_strlit("entry");
        reveal_strlit("for_op_header");
        reveal_strlit("iv");
    }

    /// If the names of the initial values are identifiers, so are the names that a new loop
    /// gives to its loop-carried variables.
    pub proof fn variable_names_are_identifiers(ir: Ir, inits: Seq<Value>, i: int)
        requires
            0 <= i < inits.len(),
            ir.def(inits[i]).name is Some ==> Grammar::is_identifier(ir.def(inits[i]).name->0),
        ensures
            Grammar::is_identifier(ForOp::variable_name(ir, inits, i)),
    {
        reveal_strlit("loop_var_");
        Grammar::decimal_is_word(i as nat);
        Grammar::prolonged("loop_var_"@, Text::decimal(i as nat));
    }

    /// If the label of a block that is split is an identifier, so is the label of its second
    /// half.
    pub proof fn split_labels_are_identifiers(label: Seq<char>)
        requires
            Grammar::is_identifier(label),
        ensures
            Ir::split_label(Some(label)) is Some,
            Grammar::is_identifier(Ir::split_label(Some(label))->0),
    {
        reveal_strlit("_split");
        Grammar::prolonged(label, "_split"@);
    }
}

} // verus!
