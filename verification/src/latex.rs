//! Escaping of text for inclusion in LaTeX documents.

use vstd::prelude::*;

verus! {

/// What one character becomes in LaTeX output.
pub open spec fn latex_escape_char(c: char) -> Seq<char> {
    if c == '&' {
        "\\&"@
    } else if c == '%' {
        "\\%"@
    } else if c == '$' {
        "\\$"@
    } else if c == '#' {
        "\\#"@
    } else if c == '_' {
        "\\_"@
    } else if c == '{' {
        "\\{"@
    } else if c == '}' {
        "\\}"@
    } else if c == '~' {
        "\\textasciitilde{}"@
    } else if c == '^' {
        "\\textasciicircum{}"@
    } else if c == '\\' {
        "\\textbackslash{}"@
    } else if c == '<' {
        "\\textless{}"@
    } else if c == '>' {
        "\\textgreater{}"@
    } else if c == '|' {
        "\\textbar{}"@
    } else {
        seq![c]
    }
}

/// Every character replaced by its LaTeX escape.
pub open spec fn spec_latex_escape(s: Seq<char>) -> Seq<char>
    decreases s.len(),
{
    if s.len() == 0 {
        Seq::empty()
    } else {
        spec_latex_escape(s.subrange(0, s.len() - 1)) + latex_escape_char(s[s.len() - 1])
    }
}

/// Escapes the LaTeX special characters of a string, character by
/// character.
pub fn latex_escape(initial: &str) -> (r: String)
    ensures
        r@ == spec_latex_escape(initial@),
{
    let len = initial.unicode_len();
    let mut escaped = String::new();
    let mut i: usize = 0;
    proof {
        assert(initial@.subrange(0, 0) =~= Seq::<char>::empty());
        assert(escaped@ =~= spec_latex_escape(initial@.subrange(0, 0)));
    }
    while i < len
        invariant
            0 <= i <= len,
            len == initial@.len(),
            escaped@ == spec_latex_escape(initial@.subrange(0, i as int)),
        decreases len - i,
    {
        proof {
            let pre = initial@.subrange(0, i as int);
            let post = initial@.subrange(0, i + 1);
            assert(post.subrange(0, post.len() - 1) =~= pre);
            assert(post[post.len() - 1] == initial@[i as int]);
        }
        let c = initial.get_char(i);
        if c == '&' {
            escaped.append("\\&");
        } else if c == '%' {
            escaped.append("\\%");
        } else if c == '$' {
            escaped.append("\\$");
        } else if c == '#' {
            escaped.append("\\#");
        } else if c == '_' {
            escaped.append("\\_");
        } else if c == '{' {
            escaped.append("\\{");
        } else if c == '}' {
            escaped.append("\\}");
        } else if c == '~' {
            escaped.append("\\textasciitilde{}");
        } else if c == '^' {
            escaped.append("\\textasciicircum{}");
        } else if c == '\\' {
            escaped.append("\\textbackslash{}");
        } else if c == '<' {
            escaped.append("\\textless{}");
        } else if c == '>' {
            escaped.append("\\textgreater{}");
        } else if c == '|' {
            escaped.append("\\textbar{}");
        } else {
            crate::text::push_char(&mut escaped, c);
        }
        i = i + 1;
    }
    proof {
        assert(initial@.subrange(0, len as int) =~= initial@);
    }
    escaped
}

} // verus!
