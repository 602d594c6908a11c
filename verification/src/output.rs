//! Output styles and their bold markers, and the error taxonomy.

use vstd::prelude::*;

verus! {

/// The two supported output styles: rich text (`<b>` / `</b>`) and
/// lightweight markup (`**` / `**`).
#[derive(Clone, Copy, Debug, PartialEq, Eq, Structural)]
pub enum OutputType {
    HTML,
    Markdown,
}

/// Everything that can go wrong around the transform.
#[derive(Clone, Copy, Debug, PartialEq, Eq, Structural)]
pub enum NotBrError {
    /// The bold fraction lies outside the closed interval [0, 1].
    InvalidPercentage,
    /// A textual output-style name matches no known alias.
    UnrecognizedOutputKind,
    /// Raw input bytes are not valid Unicode text.
    InvalidEncoding,
}

/// `c` with an ASCII capital letter replaced by its small form; any other
/// character is left as it is.
pub open spec fn ascii_lower_char(c: char) -> char {
    if 65 <= c as u32 && c as u32 <= 90 {
        (((c as u32) + 32) as u8) as char
    } else {
        c
    }
}

/// `s` with every ASCII capital letter replaced by its small form.
pub open spec fn ascii_lower(s: Seq<char>) -> Seq<char> {
    s.map_values(|c: char| ascii_lower_char(c))
}

/// `c` with an ASCII capital letter replaced by its small form.
fn lower_char(c: char) -> (r: char)
    ensures
        r == ascii_lower_char(c),
{
    let u = c as u32;
    if 65 <= u && u <= 90 {
        ((u + 32) as u8) as char
    } else {
        c
    }
}

/// Whether `s` and `t` are the same string up to ASCII case.
fn eq_ignore_case(s: &str, t: &str) -> (r: bool)
    ensures
        r == (ascii_lower(s@) == ascii_lower(t@)),
{
    let n = s.unicode_len();
    let m = t.unicode_len();
    if n != m {
        proof {
            assert(ascii_lower(s@).len() != ascii_lower(t@).len());
        }
        return false;
    }
    let mut i: usize = 0;
    while i < n
        invariant
            i <= n,
            n == s@.len(),
            n == t@.len(),
            forall|j: int|
                0 <= j < i ==> ascii_lower_char(s@[j]) == ascii_lower_char(t@[j]),
        decreases n - i,
    {
        let a = lower_char(s.get_char(i));
        let b = lower_char(t.get_char(i));
        if a != b {
            proof {
                assert(ascii_lower(s@)[i as int] != ascii_lower(t@)[i as int]);
            }
            return false;
        }
        i += 1;
    }
    proof {
        assert(ascii_lower(s@) =~= ascii_lower(t@));
    }
    true
}

impl OutputType {
    /// Parses a textual output-style name: the aliases `html`, `markdown` and
    /// `md`, matched without regard to ASCII case; any other name fails with
    /// `UnrecognizedOutputKind`.
    pub fn from_str(s: &str) -> (r: Result<OutputType, NotBrError>)
        ensures
            r == (if ascii_lower(s@) == "html"@ {
                Ok::<OutputType, NotBrError>(OutputType::HTML)
            } else if ascii_lower(s@) == "markdown"@ || ascii_lower(s@) == "md"@ {
                Ok::<OutputType, NotBrError>(OutputType::Markdown)
            } else {
                Err::<OutputType, NotBrError>(NotBrError::UnrecognizedOutputKind)
            }),
    {
        proof {
            reveal_strlit("html");
            reveal_strlit("markdown");
            reveal_strlit("md");
        }
        assert(ascii_lower("html"@) =~= "html"@);
        assert(ascii_lower("markdown"@) =~= "markdown"@);
        assert(ascii_lower("md"@) =~= "md"@);
        if eq_ignore_case(s, "html") {
            Ok(OutputType::HTML)
        } else if eq_ignore_case(s, "markdown") {
            Ok(OutputType::Markdown)
        } else if eq_ignore_case(s, "md") {
            Ok(OutputType::Markdown)
        } else {
            Err(NotBrError::UnrecognizedOutputKind)
        }
    }

    /// The characters of the opening bold marker of this style.
    pub open spec fn open_marker(self) -> Seq<char> {
        match self {
            OutputType::HTML => seq!['<', 'b', '>'],
            OutputType::Markdown => seq!['*', '*'],
        }
    }

    /// The characters of the closing bold marker of this style.
    pub open spec fn close_marker(self) -> Seq<char> {
        match self {
            OutputType::HTML => seq!['<', '/', 'b', '>'],
            OutputType::Markdown => seq!['*', '*'],
        }
    }

    /// The opening bold marker of this style.
    pub fn get_open(&self) -> (r: &'static str)
        ensures
            r@ == self.open_marker(),
    {
        proof {
            reveal_strlit("<b>");
            reveal_strlit("**");
        }
        match self {
            OutputType::HTML => "<b>",
            OutputType::Markdown => "**",
        }
    }

    /// The closing bold marker of this style.
    pub fn get_closing(&self) -> (r: &'static str)
        ensures
            r@ == self.close_marker(),
    {
        proof {
            reveal_strlit("</b>");
            reveal_strlit("**");
        }
        match self {
            OutputType::HTML => "</b>",
            OutputType::Markdown => "**",
        }
    }
}

} // verus!
