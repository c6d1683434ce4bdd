use vstd::prelude::*;

verus! {

/// Splits `s` at the first `c`: the part before it and the part after it. Where `s` holds no `c`,
/// the first part is `s` whole and the second is empty.
pub open spec fn split_first(s: Seq<char>, c: char) -> (Seq<char>, Seq<char>)
    decreases s.len(),
{
    if s.len() == 0 {
        (s, s)
    } else if s[0] == c {
        (Seq::empty(), s.skip(1))
    } else {
        let rest = split_first(s.skip(1), c);
        (seq![s[0]] + rest.0, rest.1)
    }
}

/// Where `p` is the position of the first `c` in `s`, splitting there gives what lies on each side.
pub proof fn lemma_split_first_at(s: Seq<char>, c: char, p: int)
    requires
        0 <= p < s.len(),
        s[p] == c,
        forall|j: int| 0 <= j < p ==> s[j] != c,
    ensures
        split_first(s, c) == (s.take(p), s.skip(p + 1)),
    decreases p,
{
    if p > 0 {
        let t = s.skip(1);
        assert forall|j: int| 0 <= j < p - 1 implies t[j] != c by {
            assert(t[j] == s[j + 1]);
        }
        lemma_split_first_at(t, c, p - 1);
        assert(seq![s[0]] + t.take(p - 1) =~= s.take(p));
        assert(t.skip(p) =~= s.skip(p + 1));
    }
}

/// The position of the first `c` in `s`, if there is one.
pub fn find_char(s: &str, c: char) -> (r: Option<usize>)
    ensures
        match r {
            Some(p) => p < s@.len() && s@[p as int] == c && forall|j: int|
                0 <= j < p ==> s@[j] != c,
            None => !s@.contains(c),
        },
{
    let n = s.unicode_len();
    let mut i: usize = 0;
    while i < n
        invariant
            n == s@.len(),
            i <= n,
            forall|j: int| 0 <= j < i ==> s@[j] != c,
        decreases n - i,
    {
        if s.get_char(i) == c {
            return Some(i);
        }
        i = i + 1;
    }
    None
}

/// Whether `c` occurs in `s`.
pub fn contains_char(s: &str, c: char) -> (r: bool)
    ensures
        r == s@.contains(c),
{
    match find_char(s, c) {
        Some(p) => {
            assert(s@[p as int] == c);
            true
        },
        None => false,
    }
}

/// Splits `s` at its first `c`, or gives `None` where `s` holds no `c`.
pub fn split_once_char(s: &str, c: char) -> (r: Option<(&str, &str)>)
    ensures
        match r {
            Some(parts) => s@.contains(c) && parts.0@ == split_first(s@, c).0 && parts.1@
                == split_first(s@, c).1,
            None => !s@.contains(c),
        },
{
    match find_char(s, c) {
        Some(p) => {
            proof {
                lemma_split_first_at(s@, c, p as int);
            }
            let n = s.unicode_len();
            let before = s.substring_char(0, p);
            let after = s.substring_char(p + 1, n);
            assert(s@[p as int] == c);
            Some((before, after))
        },
        None => None,
    }
}

} // verus!
