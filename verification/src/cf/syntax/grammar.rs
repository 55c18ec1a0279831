//! The words and lists that the textual form of an operation is made of.

use crate::cf::syntax::outside::is_identifier;
use vstd::prelude::*;

verus! {

/// Words and lists.
pub struct Grammar;

/// What is read at a position of a text: what it is, and where it ends. Nothing is read where
/// the text does not have the form that is looked for.
impl Grammar {
    /// Is this white space?
    pub open spec fn is_space(c: char) -> bool {
        ||| '\t' <= c <= '\r'
        ||| c == ' '
        ||| c == '\u{85}'
        ||| c == '\u{A0}'
        ||| c == '\u{1680}'
        ||| '\u{2000}' <= c <= '\u{200A}'
        ||| c == '\u{2028}'
        ||| c == '\u{2029}'
        ||| c == '\u{202F}'
        ||| c == '\u{205F}'
        ||| c == '\u{3000}'
    }

    /// May an identifier begin with this?
    pub open spec fn is_word_start(c: char) -> bool {
        'a' <= c <= 'z' || 'A' <= c <= 'Z' || c == '_'
    }

    /// May an identifier go on with this?
    pub open spec fn is_word_char(c: char) -> bool {
        Grammar::is_word_start(c) || '0' <= c <= '9'
    }

    /// Is the text an identifier: a letter or an underscore, followed by letters, digits and
    /// underscores?
    pub open spec fn is_identifier(text: Seq<char>) -> bool {
        &&& text.len() > 0
        &&& Grammar::is_word_start(text[0])
        &&& forall|i: int| 0 <= i < text.len() ==> Grammar::is_word_char(#[trigger] text[i])
    }

    /// Where the white space that begins at `i` ends.
    pub open spec fn spaces(s: Seq<char>, i: int) -> int
        decreases s.len() - i,
    {
        if 0 <= i < s.len() && Grammar::is_space(s[i]) {
            Grammar::spaces(s, i + 1)
        } else {
            i
        }
    }

    /// Where the letters, digits and underscores that begin at `i` end.
    pub open spec fn word_end(s: Seq<char>, i: int) -> int
        decreases s.len() - i,
    {
        if 0 <= i < s.len() && Grammar::is_word_char(s[i]) {
            Grammar::word_end(s, i + 1)
        } else {
            i
        }
    }

    /// The identifier at `i`.
    pub open spec fn identifier(s: Seq<char>, i: int) -> Option<(Seq<char>, int)> {
        if 0 <= i < s.len() && Grammar::is_word_start(s[i]) {
            Some((s.subrange(i, Grammar::word_end(s, i)), Grammar::word_end(s, i)))
        } else {
            None
        }
    }

    /// The given text at `i`.
    pub open spec fn literal(s: Seq<char>, i: int, text: Seq<char>) -> Option<int> {
        if 0 <= i && i + text.len() <= s.len() && s.subrange(i, i + text.len()) == text {
            Some(i + text.len())
        } else {
            None
        }
    }

    /// The given text, with white space around it, at `i`.
    pub open spec fn spaced(s: Seq<char>, i: int, text: Seq<char>) -> Option<int> {
        match Grammar::literal(s, Grammar::spaces(s, i), text) {
            Some(end) => Some(Grammar::spaces(s, end)),
            None => None,
        }
    }

    /// White space ends no earlier than it begins, and within the text.
    pub proof fn spaces_range(s: Seq<char>, i: int)
        requires
            0 <= i <= s.len(),
        ensures
            i <= Grammar::spaces(s, i) <= s.len(),
        decreases s.len() - i,
    {
        if i < s.len() && Grammar::is_space(s[i]) {
            Grammar::spaces_range(s, i + 1);
        }
    }

    /// A word ends no earlier than it begins, and within the text.
    pub proof fn word_end_range(s: Seq<char>, i: int)
        requires
            0 <= i <= s.len(),
        ensures
            i <= Grammar::word_end(s, i) <= s.len(),
            i < s.len() && Grammar::is_word_char(s[i]) ==> i < Grammar::word_end(s, i),
            forall|k: int|
                i <= k < Grammar::word_end(s, i) ==> Grammar::is_word_char(#[trigger] s[k]),
        decreases s.len() - i,
    {
        if i < s.len() && Grammar::is_word_char(s[i]) {
            Grammar::word_end_range(s, i + 1);
        }
    }

    /// The identifiers at `i`, at least one, with commas between them, and the white space
    /// behind them.
    pub open spec fn identifiers(s: Seq<char>, i: int) -> Option<(Seq<Seq<char>>, int)>
        decreases s.len() - i,
    {
        match Grammar::identifier(s, i) {
            None => None,
            Some((name, name_end)) => {
                let end = Grammar::spaces(s, name_end);
                if end < s.len() && s[end] == ',' {
                    proof {
                        Grammar::word_end_range(s, i);
                        Grammar::spaces_range(s, name_end);
                        Grammar::spaces_range(s, end + 1);
                    }
                    match Grammar::identifiers(s, Grammar::spaces(s, end + 1)) {
                        None => None,
                        Some((names, names_end)) => Some((seq![name] + names, names_end)),
                    }
                } else {
                    Some((seq![name], end))
                }
            },
        }
    }

    /// The identifiers at `i`, between `open` and `close`, with commas between them.
    pub open spec fn list(s: Seq<char>, i: int, open: char, close: char) -> Option<
        (Seq<Seq<char>>, int),
    > {
        if 0 <= i < s.len() && s[i] == open {
            let first = Grammar::spaces(s, i + 1);
            let (names, end) = if Grammar::identifier(s, first) is None {
                (Some(Seq::empty()), first)
            } else {
                match Grammar::identifiers(s, first) {
                    None => (None, first),
                    Some((names, end)) => (Some(names), end),
                }
            };
            if names is Some && end < s.len() && s[end] == close {
                Some((names->0, end + 1))
            } else {
                None
            }
        } else {
            None
        }
    }

    /// The names, with a comma and a blank between them.
    pub open spec fn joined(names: Seq<Seq<char>>) -> Seq<char>
        decreases names.len(),
    {
        if names.len() == 0 {
            Seq::empty()
        } else if names.len() == 1 {
            names[0]
        } else {
            Grammar::joined(names.drop_last()) + ", "@ + names.last()
        }
    }
}

impl Grammar {
    /// The texts of names.
    pub open spec fn texts(names: Seq<String>) -> Seq<Seq<char>> {
        names.map_values(|name: String| name@)
    }

    /// Is this white space?
    fn space(c: char) -> (b: bool)
        ensures
            b == Grammar::is_space(c),
    {
        ('\t' <= c && c <= '\r') || c == ' ' || c == '\u{85}' || c == '\u{A0}' || c == '\u{1680}'
            || ('\u{2000}' <= c && c <= '\u{200A}') || c == '\u{2028}' || c == '\u{2029}' || c
            == '\u{202F}' || c == '\u{205F}' || c == '\u{3000}'
    }

    /// May an identifier go on with this?
    fn word_char(c: char) -> (b: bool)
        ensures
            b == Grammar::is_word_char(c),
    {
        ('a' <= c && c <= 'z') || ('A' <= c && c <= 'Z') || c == '_' || ('0' <= c && c <= '9')
    }

    /// Reads white space.
    pub fn read_spaces(s: &Vec<char>, start: usize) -> (end: usize)
        requires
            start <= s@.len(),
        ensures
            end == Grammar::spaces(s@, start as int),
            start <= end <= s@.len(),
    {
        let mut i: usize = start;
        while i < s.len() && Grammar::space(s[i])
            invariant
                start <= i <= s@.len(),
                Grammar::spaces(s@, start as int) == Grammar::spaces(s@, i as int),
            decreases s@.len() - i,
        {
            i = i + 1;
        }
        i
    }

    /// Reads an identifier.
    pub fn read_identifier(s: &Vec<char>, start: usize) -> (read: Option<(String, usize)>)
        requires
            start <= s@.len(),
        ensures
            match read {
                Some((name, end)) => Grammar::identifier(s@, start as int) == Some(
                    (name@, end as int),
                ) && start < end <= s@.len(),
                None => Grammar::identifier(s@, start as int) is None,
            },
    {
        let mut name = String::new();
        let mut i: usize = start;
        while i < s.len() && Grammar::word_char(s[i])
            invariant
                start <= i <= s@.len(),
                Grammar::word_end(s@, start as int) == Grammar::word_end(s@, i as int),
                name@ == s@.subrange(start as int, i as int),
                forall|k: int| 0 <= k < name@.len() ==> Grammar::is_word_char(#[trigger] name@[k]),
            decreases s@.len() - i,
        {
            name.push(s[i]);
            i = i + 1;
            assert(name@ =~= s@.subrange(start as int, i as int));
        }
        if is_identifier(name.as_str()) {
            assert(name@[0] == s@[start as int]);
            Some((name, i))
        } else {
            proof {
                if name@.len() > 0 {
                    assert(name@[0] == s@[start as int]);
                }
            }
            None
        }
    }

    /// Reads the given text.
    pub fn read_literal(s: &Vec<char>, start: usize, text: &str) -> (end: Option<usize>)
        requires
            start <= s@.len(),
        ensures
            match end {
                Some(end) => Grammar::literal(s@, start as int, text@) == Some(end as int) && start
                    <= end <= s@.len(),
                None => Grammar::literal(s@, start as int, text@) is None,
            },
    {
        let len: usize = text.unicode_len();
        if s.len() - start < len {
            return None;
        }
        let total: usize = s.len();
        for k in 0..len
            invariant
                len == text@.len(),
                total == s@.len(),
                start + len <= total,
                forall|j: int| 0 <= j < k ==> s@[start + j] == text@[j],
        {
            if s[start + k] != text.get_char(k) {
                proof {
                    let found = s@.subrange(start as int, start + len);
                    assert(found[k as int] == s@[start + k]);
                    assert(found[k as int] != text@[k as int]);
                }
                return None;
            }
        }
        assert(s@.subrange(start as int, start + len) =~= text@);
        Some(start + len)
    }

    /// Reads the given text, with white space around it.
    pub fn read_spaced(s: &Vec<char>, start: usize, text: &str) -> (end: Option<usize>)
        requires
            start <= s@.len(),
        ensures
            match end {
                Some(end) => Grammar::spaced(s@, start as int, text@) == Some(end as int) && start
                    <= end <= s@.len(),
                None => Grammar::spaced(s@, start as int, text@) is None,
            },
    {
        match Grammar::read_literal(s, Grammar::read_spaces(s, start), text) {
            Some(end) => Some(Grammar::read_spaces(s, end)),
            None => None,
        }
    }

    /// Reads a character.
    pub fn read_char(s: &Vec<char>, at: usize, c: char) -> (there: bool)
        ensures
            there == (at < s@.len() && s@[at as int] == c),
            there ==> at < usize::MAX,
    {
        at < s.len() && s[at] == c
    }

    /// Reads identifiers, at least one, with commas between them.
    pub fn read_identifiers(s: &Vec<char>, start: usize) -> (read: Option<(Vec<String>, usize)>)
        requires
            start <= s@.len(),
        ensures
            match read {
                Some((names, end)) => Grammar::identifiers(s@, start as int) == Some(
                    (Grammar::texts(names@), end as int),
                ) && start <= end <= s@.len(),
                None => Grammar::identifiers(s@, start as int) is None,
            },
        decreases s@.len() - start,
    {
        match Grammar::read_identifier(s, start) {
            None => None,
            Some((name, name_end)) => {
                let end: usize = Grammar::read_spaces(s, name_end);
                let ghost text = name@;
                if Grammar::read_char(s, end, ',') {
                    match Grammar::read_identifiers(s, Grammar::read_spaces(s, end + 1)) {
                        None => None,
                        Some((mut rest, rest_end)) => {
                            let ghost tail = Grammar::texts(rest@);
                            let mut names: Vec<String> = vec![name];
                            names.append(&mut rest);
                            assert(Grammar::texts(names@) =~= seq![text] + tail);
                            Some((names, rest_end))
                        },
                    }
                } else {
                    let names: Vec<String> = vec![name];
                    assert(Grammar::texts(names@) =~= seq![text]);
                    Some((names, end))
                }
            },
        }
    }

    /// Reads identifiers between two characters, with commas between them.
    pub fn read_list(s: &Vec<char>, start: usize, open: char, close: char) -> (read: Option<
        (Vec<String>, usize),
    >)
        requires
            start <= s@.len(),
        ensures
            match read {
                Some((names, end)) => Grammar::list(s@, start as int, open, close) == Some(
                    (Grammar::texts(names@), end as int),
                ) && start <= end <= s@.len(),
                None => Grammar::list(s@, start as int, open, close) is None,
            },
    {
        if !Grammar::read_char(s, start, open) {
            return None;
        }
        let first: usize = Grammar::read_spaces(s, start + 1);
        if Grammar::read_identifier(s, first).is_none() {
            if Grammar::read_char(s, first, close) {
                let names: Vec<String> = Vec::new();
                assert(Grammar::texts(names@) =~= Seq::empty());
                return Some((names, first + 1));
            }
            return None;
        }
        match Grammar::read_identifiers(s, first) {
            None => None,
            Some((names, end)) => if Grammar::read_char(s, end, close) {
                Some((names, end + 1))
            } else {
                None
            },
        }
    }

    /// Writes names, with a comma and a blank between them.
    pub fn write_joined(names: &Vec<String>) -> (text: String)
        ensures
            text@ == Grammar::joined(Grammar::texts(names@)),
    {
        let ghost texts = Grammar::texts(names@);
        let mut text = String::new();
        for i in 0..names.len()
            invariant
                texts == Grammar::texts(names@),
                text@ == Grammar::joined(texts.take(i as int)),
        {
            proof {
                assert(texts.take(i + 1).drop_last() =~= texts.take(i as int));
                assert(texts.take(i + 1).last() == names@[i as int]@);
            }
            if i > 0 {
                text.append(", ");
            }
            text.append(names[i].as_str());
            assert(text@ =~= Grammar::joined(texts.take(i + 1)));
        }
        assert(texts.take(names@.len() as int) =~= texts);
        text
    }
}

} // verus!
