//! Escaping of text for inclusion in Markdown documents.

use vstd::prelude::*;
use crate::text::{is_digit_char, is_space_char};

verus! {

/// Whether `c` is escaped, given what preceded it: the Markdown
/// specials always; a `.` only after a digit (to defuse numbered
/// lists); a `>` only after whitespace (to defuse quotations).
pub open spec fn md_escape_here(c: char, prev_digit: bool, prev_space: bool) -> bool {
    ||| c == '\\'
    ||| c == '`'
    ||| c == '*'
    ||| c == '_'
    ||| c == '{'
    ||| c == '}'
    ||| c == '['
    ||| c == ']'
    ||| c == '('
    ||| c == ')'
    ||| c == '#'
    ||| c == '+'
    ||| c == '-'
    ||| c == '!'
    ||| (c == '.' && prev_digit)
    ||| (c == '>' && prev_space)
}

/// The Markdown escape of `s`, with the given facts about the
/// character just before it.
pub open spec fn spec_markdown_escape(s: Seq<char>, prev_digit: bool, prev_space: bool) -> Seq<
    char,
>
    decreases s.len(),
{
    if s.len() == 0 {
        Seq::empty()
    } else {
        let head: Seq<char> = if md_escape_here(s[0], prev_digit, prev_space) {
            seq!['\\', s[0]]
        } else {
            seq![s[0]]
        };
        head + spec_markdown_escape(
            s.subrange(1, s.len() as int),
            is_digit_char(s[0]),
            is_space_char(s[0]),
        )
    }
}

/// Escapes the Markdown special characters of a string; a `.` is
/// escaped only after a digit and a `>` only after whitespace.
pub fn markdown_escape(initial: &str) -> (r: String)
    ensures
        r@ == spec_markdown_escape(initial@, false, false),
{
    let len = initial.unicode_len();
    let mut escaped = String::new();
    let mut previous_digit = false;
    let mut previous_space = false;
    let mut i: usize = 0;
    proof {
        assert(initial@.subrange(0, len as int) =~= initial@);
    }
    while i < len
        invariant
            0 <= i <= len,
            len == initial@.len(),
            spec_markdown_escape(initial@, false, false) == escaped@ + spec_markdown_escape(
                initial@.subrange(i as int, len as int),
                previous_digit,
                previous_space,
            ),
            i > 0 ==> previous_digit == is_digit_char(initial@[i - 1]) && previous_space
                == is_space_char(initial@[i - 1]),
            i == 0 ==> previous_digit == false && previous_space == false,
        decreases len - i,
    {
        let ghost tail = initial@.subrange(i as int, len as int);
        proof {
            assert(tail[0] == initial@[i as int]);
            assert(tail.subrange(1, tail.len() as int) =~= initial@.subrange(
                i + 1,
                len as int,
            ));
        }
        let c = initial.get_char(i);
        let x = c as u32;
        let escape_this = c == '\\' || c == '`' || c == '*' || c == '_' || c == '{' || c == '}'
            || c == '[' || c == ']' || c == '(' || c == ')' || c == '#' || c == '+' || c == '-'
            || c == '!' || (c == '.' && previous_digit) || (c == '>' && previous_space);
        if escape_this {
            crate::text::push_char(&mut escaped, '\\');
        }
        crate::text::push_char(&mut escaped, c);
        previous_digit = 0x30 <= x && x <= 0x39;
        previous_space = crate::text::is_space(c);
        i = i + 1;
    }
    proof {
        assert(initial@.subrange(i as int, len as int) =~= Seq::<char>::empty());
        assert(escaped@ + Seq::<char>::empty() =~= escaped@);
    }
    escaped
}

} // verus!