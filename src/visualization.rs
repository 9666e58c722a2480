//! Text helpers for the spectrogram drawing.
use vstd::prelude::*;

verus! {

/// What `c` becomes inside SVG text: the five markup characters as entities,
/// any other character as itself.
pub open spec fn escaped_char(c: char) -> Seq<char> {
    if c == '<' {
        seq!['&', 'l', 't', ';']
    } else if c == '>' {
        seq!['&', 'g', 't', ';']
    } else if c == '"' {
        seq!['&', 'q', 'u', 'o', 't', ';']
    } else if c == '\'' {
        seq!['&', 'a', 'p', 'o', 's', ';']
    } else if c == '&' {
        seq!['&', 'a', 'm', 'p', ';']
    } else {
        seq![c]
    }
}

/// The escape of the first `upto` characters of `s`.
pub open spec fn escaped_upto(s: Seq<char>, upto: int) -> Seq<char>
    decreases upto,
{
    if upto <= 0 {
        Seq::empty()
    } else {
        escaped_upto(s, upto - 1) + escaped_char(s[upto - 1])
    }
}

/// Relies on `String::push`: appends one character.
#[verifier::external_body]
fn push_char(s: &mut String, c: char)
    ensures
        final(s)@ == old(s)@.push(c),
{
    s.push(c)
}

/// `input` made safe to place inside SVG text or an attribute.
pub fn svg_escape(input: &str) -> (r: String)
    ensures
        r@ == escaped_upto(input@, input@.len() as int),
{
    let len = input.unicode_len();
    let mut out = String::new();
    let mut i: usize = 0;
    while i < len
        invariant
            len == input@.len(),
            i <= len,
            out@ == escaped_upto(input@, i as int),
        decreases len - i,
    {
        let ch = input.get_char(i);
        if ch == '<' {
            proof {
                reveal_strlit("&lt;");
            }
            out.append("&lt;");
        } else if ch == '>' {
            proof {
                reveal_strlit("&gt;");
            }
            out.append("&gt;");
        } else if ch == '"' {
            proof {
                reveal_strlit("&quot;");
            }
            out.append("&quot;");
        } else if ch == '\'' {
            proof {
                reveal_strlit("&apos;");
            }
            out.append("&apos;");
        } else if ch == '&' {
            proof {
                reveal_strlit("&amp;");
            }
            out.append("&amp;");
        } else {
            push_char(&mut out, ch);
        }
        proof {
            assert(out@ =~= escaped_upto(input@, i + 1));
        }
        i = i + 1;
    }
    out
}

} // verus!
