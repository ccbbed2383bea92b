//! Plain-text rendering helpers: hour ticks as a decimal number of
//! hours, and fixed-width justification of display strings.

use vstd::prelude::*;
use crate::data::MAX_ENTRY_VALUE;
use crate::text::{dec_str, digit_char, strip_trailing};

verus! {

/// The four digits of a fraction below ten thousand.
pub open spec fn pad4(n: int) -> Seq<char> {
    seq![
        digit_char(n / 1000),
        digit_char((n / 100) % 10),
        digit_char((n / 10) % 10),
        digit_char(n % 10),
    ]
}

/// Hour ticks rendered as a decimal number of hours: the whole hours,
/// then up to four fraction digits, rounded half up and with trailing
/// zeros dropped; a bare integer when the fraction vanishes.
pub open spec fn spec_format_ticks(t: int) -> Seq<char> {
    let m = if t < 0 {
        -t
    } else {
        t
    };
    let whole0 = m / 60000;
    let d4 = (m % 60000 + 3) / 6;
    let whole = if d4 == 10000 {
        whole0 + 1
    } else {
        whole0
    };
    let frac = if d4 == 10000 {
        0
    } else {
        d4
    };
    let digits = if frac == 0 {
        dec_str(whole)
    } else {
        dec_str(whole) + seq!['.'] + strip_trailing(pad4(frac), '0')
    };
    if t < 0 {
        seq!['-'] + digits
    } else {
        digits
    }
}

/// Renders hour ticks as a decimal number of hours.
#[verifier::rlimit(50)]
pub fn format_ticks(t: i64) -> (s: String)
    requires
        -100 * MAX_ENTRY_VALUE <= t <= 100 * MAX_ENTRY_VALUE,
    ensures
        s@ == spec_format_ticks(t as int),
{
    let neg = t < 0;
    let m: u64 = if t < 0 {
        (-t) as u64
    } else {
        t as u64
    };
    let whole0 = m / 60000;
    let d4 = (m % 60000 + 3) / 6;
    let whole: u64 = if d4 == 10000 {
        whole0 + 1
    } else {
        whole0
    };
    let frac: u64 = if d4 == 10000 {
        0
    } else {
        d4
    };
    let ghost sign_part: Seq<char> = if neg {
        seq!['-']
    } else {
        Seq::<char>::empty()
    };
    let mut s = String::new();
    if neg {
        crate::text::push_char(&mut s, '-');
    }
    proof {
        assert(s@ =~= sign_part);
    }
    let ds = crate::text::u64_str(whole);
    s.append(ds.as_str());
    if frac == 0 {
        proof {
            assert(s@ =~= spec_format_ticks(t as int));
        }
        return s;
    }
    crate::text::push_char(&mut s, '.');
    let c1 = crate::text::digit_of(frac / 1000);
    let c2 = crate::text::digit_of((frac / 100) % 10);
    let c3 = crate::text::digit_of((frac / 10) % 10);
    let c4 = crate::text::digit_of(frac % 10);
    let keep: usize = if c4 != '0' {
        4
    } else if c3 != '0' {
        3
    } else if c2 != '0' {
        2
    } else {
        1
    };
    proof {
        let p = pad4(frac as int);
        assert(p.len() == 4);
        assert(p[0] == c1 && p[1] == c2 && p[2] == c3 && p[3] == c4);
        assert(keep >= 2 ==> p[keep - 1] != '0');
        if keep == 1 {
            assert(frac % 10 == 0 && (frac / 10) % 10 == 0 && (frac / 100) % 10 == 0);
            assert(frac / 1000 != 0);
            assert(p[0] != '0');
        }
        assert(forall|j: int| keep <= j < 4 ==> p[j] == '0');
        crate::text::lemma_strip_trailing_skip(p, '0', keep as int);
    }
    crate::text::push_char(&mut s, c1);
    if keep >= 2 {
        crate::text::push_char(&mut s, c2);
    }
    if keep >= 3 {
        crate::text::push_char(&mut s, c3);
    }
    if keep >= 4 {
        crate::text::push_char(&mut s, c4);
    }
    proof {
        let p = pad4(frac as int);
        let stripped = strip_trailing(p, '0');
        assert(stripped == p.subrange(0, keep as int));
        let digits = dec_str(whole as int) + seq!['.'] + stripped;
        assert(s@ =~= sign_part + digits);
        assert(spec_format_ticks(t as int) == (if t < 0 {
            seq!['-'] + digits
        } else {
            digits
        }));
        if neg {
            assert(sign_part + digits =~= seq!['-'] + digits);
        } else {
            assert(sign_part + digits =~= digits);
        }
    }
    s
}

/// How a string is placed inside a display field.
#[derive(Debug, Clone, Copy, PartialEq, Eq, Structural)]
pub enum Alignment {
    Left,
    Right,
    Center,
}

/// `n` spaces.
pub open spec fn spaces(n: int) -> Seq<char>
    decreases n,
{
    if n <= 0 {
        Seq::empty()
    } else {
        spaces(n - 1).push(' ')
    }
}

/// A string fitted into a field of `width` characters: longer strings
/// are cut, shorter ones padded with spaces on the side the alignment
/// names. Centring right-aligns the text inside the left half of the
/// padding and then appends the right half.
pub open spec fn spec_justify(s: Seq<char>, width: int, a: Alignment) -> Seq<char> {
    if s.len() > width {
        s.subrange(0, width)
    } else {
        let pad = width - s.len();
        match a {
            Alignment::Left => s + spaces(pad),
            Alignment::Right => spaces(pad) + s,
            Alignment::Center => {
                let pl = pad / 2;
                (if s.len() >= pl {
                    s
                } else {
                    spaces(pl - s.len()) + s
                }) + spaces(pad - pl)
            },
        }
    }
}

/// Builds `n` spaces.
fn make_spaces(n: usize) -> (r: String)
    ensures
        r@ == spaces(n as int),
{
    let mut r = String::new();
    let mut i: usize = 0;
    proof {
        assert(r@ =~= spaces(0));
    }
    while i < n
        invariant
            0 <= i <= n,
            r@ == spaces(i as int),
        decreases n - i,
    {
        crate::text::push_char(&mut r, ' ');
        i = i + 1;
    }
    r
}

/// Fits `s` into a field of `width` characters under the given
/// alignment.
pub fn justify(s: &str, width: usize, a: Alignment) -> (r: String)
    ensures
        r@ == spec_justify(s@, width as int, a),
{
    let len = s.unicode_len();
    if len > width {
        return s.substring_char(0, width).to_owned();
    }
    let pad = width - len;
    match a {
        Alignment::Left => {
            let mut r = s.to_owned();
            let sp = make_spaces(pad);
            r.append(sp.as_str());
            r
        },
        Alignment::Right => {
            let mut r = make_spaces(pad);
            r.append(s);
            r
        },
        Alignment::Center => {
            let pl = pad / 2;
            let mut r = if len >= pl {
                s.to_owned()
            } else {
                let mut q = make_spaces(pl - len);
                q.append(s);
                q
            };
            let sp = make_spaces(pad - pl);
            r.append(sp.as_str());
            r
        },
    }
}

} // verus!
