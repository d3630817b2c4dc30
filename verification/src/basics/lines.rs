//! Counting the lines of a text that hold more than white space.
use vstd::prelude::*;

verus! {

/// The characters with the Unicode `White_Space` property.
pub open spec fn white_space(c: char) -> bool {
    ||| '\u{9}' <= c <= '\u{d}'
    ||| c == ' '
    ||| c == '\u{85}'
    ||| c == '\u{a0}'
    ||| c == '\u{1680}'
    ||| '\u{2000}' <= c <= '\u{200a}'
    ||| c == '\u{2028}'
    ||| c == '\u{2029}'
    ||| c == '\u{202f}'
    ||| c == '\u{205f}'
    ||| c == '\u{3000}'
}

/// Whether `c` is white space (as `char::is_whitespace`).
pub fn is_whitespace(c: char) -> (r: bool)
    ensures
        r == white_space(c),
{
    ('\u{9}' <= c && c <= '\u{d}') || c == ' ' || c == '\u{85}' || c == '\u{a0}' || c == '\u{1680}'
        || ('\u{2000}' <= c && c <= '\u{200a}') || c == '\u{2028}' || c == '\u{2029}' || c
        == '\u{202f}' || c == '\u{205f}' || c == '\u{3000}'
}

/// The line holds nothing but white space: trimmed, it is empty.
pub open spec fn blank(line: Seq<char>) -> bool {
    forall|i: int| 0 <= i < line.len() ==> white_space(#[trigger] line[i])
}

/// The number of lines that are not blank.
pub open spec fn nonblank_count(lines: Seq<Seq<char>>) -> nat
    decreases lines.len(),
{
    if lines.len() == 0 {
        0
    } else {
        nonblank_count(lines.drop_last()) + if blank(lines.last()) {
            0nat
        } else {
            1nat
        }
    }
}

/// Whether `line` is blank.
pub fn is_blank(line: &String) -> (r: bool)
    ensures
        r == blank(line@),
{
    let ghost text = line@;
    proof {
        broadcast use vstd::string::axiom_spec_iter;
    }
    for c in it: line.chars()
        invariant
            it.seq() == text,
            text == line@,
            blank(text.take(it.index() as int)),
    {
        let ghost i = it.index() as int;
        if !is_whitespace(c) {
            proof {
                assert(text[i] == c);
            }
            return false;
        }
        proof {
            assert forall|j: int| 0 <= j < i + 1 implies white_space(#[trigger] text.take(i + 1)[j]) by {
                if j < i {
                    assert(text.take(i + 1)[j] == text.take(i)[j]);
                }
            }
        }
    }
    proof {
        assert(text.take(text.len() as int) =~= text);
    }
    true
}

/// The number of lines that hold more than white space.
pub fn count_nonblank_lines(lines: &Vec<String>) -> (n: usize)
    ensures
        n == nonblank_count(lines@.map_values(|l: String| l@)),
{
    let ghost all = lines@.map_values(|l: String| l@);
    let mut n: usize = 0;
    let mut k: usize = 0;
    while k < lines.len()
        invariant
            k <= lines@.len(),
            all == lines@.map_values(|l: String| l@),
            n == nonblank_count(all.take(k as int)),
            n <= k,
        decreases lines@.len() - k,
    {
        proof {
            assert(all.take(k + 1).drop_last() =~= all.take(k as int));
            assert(all.take(k + 1).last() == lines@[k as int]@);
        }
        if !is_blank(&lines[k]) {
            n = n + 1;
        }
        k = k + 1;
    }
    proof {
        assert(all.take(lines@.len() as int) =~= all);
    }
    n
}

} // verus!
