//! Validity of a string of brackets.
use vstd::prelude::*;

verus! {

/// The closing bracket that matches the opening bracket `c`, if `c` opens.
pub open spec fn closer_of(c: char) -> Option<char> {
    if c == '(' {
        Some(')')
    } else if c == '[' {
        Some(']')
    } else if c == '{' {
        Some('}')
    } else {
        None
    }
}

/// Reading `s` from the left: the closing brackets still owed, the most recent
/// last, or `None` once a character breaks the rules (a closing bracket that
/// does not close the most recent open bracket, or a character that is no
/// bracket).
pub open spec fn owed_closers(s: Seq<char>) -> Option<Seq<char>>
    decreases s.len(),
{
    if s.len() == 0 {
        Some(Seq::empty())
    } else {
        match owed_closers(s.drop_last()) {
            None => None,
            Some(owed) => {
                let c = s.last();
                match closer_of(c) {
                    Some(cl) => Some(owed.push(cl)),
                    None => if (c == ')' || c == ']' || c == '}') && owed.len() > 0 && owed.last()
                        == c {
                        Some(owed.drop_last())
                    } else {
                        None
                    },
                }
            },
        }
    }
}

/// Every bracket is closed by one of its kind, in order, and every closing
/// bracket closes one.
pub open spec fn brackets_valid(s: Seq<char>) -> bool {
    owed_closers(s) == Some(Seq::<char>::empty())
}

pub struct Solution;

impl Solution {
    /// Whether `s` is a valid string of brackets `()[]{}`.
    pub fn is_valid(s: String) -> (r: bool)
        ensures
            r == brackets_valid(s@),
    {
        let mut stack: Vec<char> = Vec::new();
        let ghost text = s@;
        proof {
            broadcast use vstd::string::axiom_spec_iter;
        }
        for c in it: s.chars()
            invariant
                it.seq() == text,
                text == s@,
                owed_closers(text.take(it.index() as int)) == Some(stack@),
        {
            let ghost i = it.index() as int;
            proof {
                assert(text.take(i + 1).drop_last() =~= text.take(i));
                assert(text.take(i + 1).last() == c);
            }
            if c == '(' {
                stack.push(')');
            } else if c == '[' {
                stack.push(']');
            } else if c == '{' {
                stack.push('}');
            } else if c == ')' || c == ']' || c == '}' {
                let ghost owed = stack@;
                match stack.pop() {
                    Some(top) => {
                        if top != c {
                            proof {
                                assert(owed.len() > 0 && owed.last() == top);
                                assert(owed_closers(text.take(i + 1)) is None);
                                lemma_broken_stays_broken(text, i + 1);
                            }
                            return false;
                        }
                    },
                    None => {
                        proof {
                            assert(owed.len() == 0);
                            assert(owed_closers(text.take(i + 1)) is None);
                            lemma_broken_stays_broken(text, i + 1);
                        }
                        return false;
                    },
                }
            } else {
                proof {
                    lemma_broken_stays_broken(text, i + 1);
                }
                return false;
            }
        }
        proof {
            assert(text.take(text.len() as int) =~= text);
            if stack.len() == 0 {
                assert(stack@ =~= Seq::<char>::empty());
            }
        }
        stack.len() == 0
    }
}

/// Once the rules are broken, no further characters mend them.
proof fn lemma_broken_stays_broken(s: Seq<char>, k: int)
    requires
        0 <= k <= s.len(),
        owed_closers(s.take(k)) is None,
    ensures
        owed_closers(s) is None,
    decreases s.len() - k,
{
    if k < s.len() {
        assert(s.take(k + 1).drop_last() =~= s.take(k));
        lemma_broken_stays_broken(s, k + 1);
    } else {
        assert(s.take(k) =~= s);
    }
}


/// The closing brackets.
pub open spec fn is_closer(c: char) -> bool {
    c == ')' || c == ']' || c == '}'
}

/// Reading `s` after `pre` owes what `pre` owed, followed by what `s` owes.
proof fn lemma_owed_concat(pre: Seq<char>, s: Seq<char>, st: Seq<char>, u: Seq<char>)
    requires
        owed_closers(pre) == Some(st),
        owed_closers(s) == Some(u),
    ensures
        owed_closers(pre + s) == Some(st + u),
    decreases s.len(),
{
    if s.len() == 0 {
        assert(pre + s =~= pre);
        assert(st + u =~= st);
    } else {
        let s1 = s.drop_last();
        let c = s.last();
        let u1 = owed_closers(s1)->0;
        lemma_owed_concat(pre, s1, st, u1);
        assert((pre + s).drop_last() =~= pre + s1);
        assert((pre + s).last() == c);
        match closer_of(c) {
            Some(cl) => {
                assert((st + u1).push(cl) =~= st + u1.push(cl));
            },
            None => {
                assert((st + u1).last() == u1.last());
                assert((st + u1).drop_last() =~= st + u1.drop_last());
            },
        }
    }
}

/// The empty string is valid.
pub proof fn law_empty_valid()
    ensures
        brackets_valid(Seq::empty()),
{
}

/// A valid string put between an opening bracket and its own closing bracket, and
/// followed by a valid string, is valid.
pub proof fn law_wrap_valid(o: char, s: Seq<char>, t: Seq<char>)
    requires
        closer_of(o) is Some,
        brackets_valid(s),
        brackets_valid(t),
    ensures
        brackets_valid(seq![o] + s + seq![closer_of(o)->0] + t),
{
    let cl = closer_of(o)->0;
    let a = seq![o];
    assert(a.drop_last() =~= Seq::<char>::empty());
    assert(owed_closers(a.drop_last()) == Some(Seq::<char>::empty()));
    assert(Seq::<char>::empty().push(cl) =~= seq![cl]);
    assert(owed_closers(a) == Some(seq![cl]));
    lemma_owed_concat(a, s, seq![cl], Seq::empty());
    assert(seq![cl] + Seq::<char>::empty() =~= seq![cl]);
    let b = a + s + seq![cl];
    assert(b.drop_last() =~= a + s);
    assert(b.last() == cl);
    assert(is_closer(cl));
    assert(seq![cl].drop_last() =~= Seq::<char>::empty());
    assert(owed_closers(b) == Some(Seq::<char>::empty()));
    lemma_owed_concat(b, t, Seq::empty(), Seq::empty());
    assert(Seq::<char>::empty() + Seq::<char>::empty() =~= Seq::<char>::empty());
}

/// An opening bracket followed at once by a closing bracket of another kind makes any
/// string that holds the pair invalid.
pub proof fn law_mismatch_invalid(p: Seq<char>, o: char, c: char, q: Seq<char>)
    requires
        closer_of(o) is Some,
        is_closer(c),
        c != closer_of(o)->0,
    ensures
        !brackets_valid(p + seq![o, c] + q),
{
    let s = p + seq![o, c] + q;
    let k = p.len() + 2int;
    assert(s.take(k).drop_last() =~= p.push(o));
    assert(s.take(k).last() == c);
    assert(p.push(o).drop_last() =~= p);
    assert(p.push(o).last() == o);
    let po = owed_closers(p.push(o));
    assert(owed_closers(s.take(k).drop_last()) == po);
    if po is Some {
        let st = owed_closers(p)->0;
        assert(po == Some(st.push(closer_of(o)->0)));
        assert(po->0.last() == closer_of(o)->0);
    }
    assert(closer_of(c) is None);
    assert(owed_closers(s.take(k)) is None);
    lemma_broken_stays_broken(s, k);
}

/// A closing bracket with no bracket open before it makes any string that starts
/// with it invalid.
pub proof fn law_unopened_closer_invalid(c: char, q: Seq<char>)
    requires
        is_closer(c),
    ensures
        !brackets_valid(seq![c] + q),
{
    let s = seq![c] + q;
    assert(s.take(1).drop_last() =~= Seq::<char>::empty());
    assert(s.take(1).last() == c);
    assert(owed_closers(s.take(1).drop_last()) == Some(Seq::<char>::empty()));
    assert(closer_of(c) is None);
    assert(owed_closers(s.take(1)) is None);
    lemma_broken_stays_broken(s, 1);
}

} // verus!
