//! What the menu front-end needs from the library: its configuration values
//! and the text form of a list of menu entries, one line per entry.

use vstd::prelude::*;
use vstd::string::StringExecFns;
use vstd::string::StringSliceAdditionalSpecFns;

use crate::order::lemma_ascii_is_boundary;
use crate::order::str_bytes;

verus! {

/// Configuration of the menu front-end.
pub struct RofiParams {
    /// Do not load the front-end's configuration file.
    pub no_config: bool,
    /// Match menu entries without regard to case.
    pub case_insensitive: bool,
}

/// The entries each followed by one line break.
pub open spec fn lines_chars(entries: Seq<String>) -> Seq<char>
    decreases entries.len(),
{
    if entries.len() == 0 {
        Seq::<char>::empty()
    } else {
        entries[0]@ + seq!['\n'] + lines_chars(entries.drop_first())
    }
}

/// `lines_chars` grows at the back, one entry at a time.
proof fn lemma_lines_push(s: Seq<String>, x: String)
    ensures
        lines_chars(s.push(x)) == lines_chars(s) + x@ + seq!['\n'],
    decreases s.len(),
{
    if s.len() == 0 {
        assert(s.push(x)[0] == x);
        assert(s.push(x).drop_first() =~= s);
        assert(lines_chars(s.push(x)) =~= lines_chars(s) + x@ + seq!['\n']);
    } else {
        assert(s.push(x)[0] == s[0]);
        assert(s.push(x).drop_first() =~= s.drop_first().push(x));
        lemma_lines_push(s.drop_first(), x);
        assert(lines_chars(s.push(x)) =~= lines_chars(s) + x@ + seq!['\n']);
    }
}

/// Turns a list of entries into one text with a line break after each entry.
pub fn vec2str(tab: Vec<String>) -> (r: String)
    ensures
        r@ == lines_chars(tab@),
{
    proof {
        reveal_strlit("\n");
    }
    let mut s = String::new();
    let mut i: usize = 0;
    while i < tab.len()
        invariant
            i <= tab@.len(),
            s@ == lines_chars(tab@.take(i as int)),
            "\n"@ =~= seq!['\n'],
        decreases tab@.len() - i,
    {
        s.append(tab[i].as_str());
        s.append("\n");
        i = i + 1;
        proof {
            assert(tab@.take(i as int) =~= tab@.take(i - 1).push(tab@[i - 1]));
            lemma_lines_push(tab@.take(i - 1), tab@[i - 1]);
            assert(s@ =~= lines_chars(tab@.take(i as int)));
        }
    }
    proof {
        assert(tab@.take(tab@.len() as int) =~= tab@);
    }
    s
}


/// The text with one trailing line break taken off, together with the
/// carriage return before it, if any.
pub open spec fn trim_newline_bytes(b: Seq<u8>) -> Seq<u8> {
    if b.len() >= 2 && b[b.len() - 2] == 13 && b[b.len() - 1] == 10 {
        b.take(b.len() - 2)
    } else if b.len() >= 1 && b[b.len() - 1] == 10 {
        b.take(b.len() - 1)
    } else {
        b
    }
}

/// Removes one trailing line break, and the carriage return before it, if
/// any: what the launcher's answer carries beyond the chosen entry.
pub fn trim_newline(s: &mut String)
    ensures
        str_bytes(*final(s)) == trim_newline_bytes(str_bytes(*old(s))),
{
    let cut: usize = {
        let b = s.as_str().as_bytes();
        if b.len() >= 1 && b[b.len() - 1] == 10 {
            if b.len() >= 2 && b[b.len() - 2] == 13 {
                2
            } else {
                1
            }
        } else {
            0
        }
    };
    if cut > 0 {
        let total = s.as_str().len();
        proof {
            vstd::utf8::encode_utf8_valid_utf8(s@);
            lemma_ascii_is_boundary(str_bytes(*s), total - cut);
        }
        let (prefix, _) = s.as_str().split_at(total - cut);
        let trimmed = prefix.to_owned();
        *s = trimmed;
        proof {
            assert(str_bytes(*s) =~= trim_newline_bytes(str_bytes(*old(s))));
        }
    }
}

} // verus!
