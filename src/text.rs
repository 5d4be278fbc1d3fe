//! Character-level helpers shared by the ledger and path code.
use vstd::prelude::*;
use vstd::std_specs::iter::IteratorSpec;

verus! {

/// The position of the last `c` in `s`, if any.
pub open spec fn last_index_of(s: Seq<char>, c: char) -> Option<int>
    decreases s.len(),
{
    if s.len() == 0 {
        None
    } else if s.last() == c {
        Some(s.len() - 1)
    } else {
        last_index_of(s.drop_last(), c)
    }
}

/// What `last_index_of` gives: the last position that holds `c`.
pub proof fn lemma_last_index_of(s: Seq<char>, c: char)
    ensures
        match last_index_of(s, c) {
            Some(p) => 0 <= p < s.len() && s[p] == c && forall|q: int|
                p < q < s.len() ==> #[trigger] s[q] != c,
            None => forall|q: int| 0 <= q < s.len() ==> #[trigger] s[q] != c,
        },
    decreases s.len(),
{
    if s.len() > 0 && s.last() != c {
        let t = s.drop_last();
        lemma_last_index_of(t, c);
        assert(s[s.len() - 1] != c);
        match last_index_of(t, c) {
            Some(p) => {
                assert forall|q: int| p < q < s.len() implies #[trigger] s[q] != c by {
                    if q < s.len() - 1 {
                        assert(s[q] == t[q]);
                    }
                }
            },
            None => {
                assert forall|q: int| 0 <= q < s.len() implies #[trigger] s[q] != c by {
                    if q < s.len() - 1 {
                        assert(s[q] == t[q]);
                    }
                }
            },
        }
    }
}

/// A position that holds `c`, with no `c` after it, is the last one.
pub proof fn lemma_last_at(s: Seq<char>, c: char, p: int)
    requires
        0 <= p < s.len(),
        s[p] == c,
        forall|q: int| p < q < s.len() ==> #[trigger] s[q] != c,
    ensures
        last_index_of(s, c) == Some(p),
{
    lemma_last_index_of(s, c);
    match last_index_of(s, c) {
        Some(i) => {
            if i < p {
                assert(s[i] == c);
                assert(s[p] != c);
            }
        },
        None => {
            assert(s[p] != c);
        },
    }
}

/// The position of the last `c` in `v`, if any.
pub fn find_last(v: &[char], c: char) -> (r: Option<usize>)
    ensures
        match r {
            Some(p) => p < v@.len() && last_index_of(v@, c) == Some(p as int),
            None => last_index_of(v@, c) is None,
        },
{
    proof {
        lemma_last_index_of(v@, c);
    }
    let mut j: usize = v.len();
    while j > 0
        invariant
            j <= v@.len(),
            forall|q: int| j <= q < v@.len() ==> #[trigger] v@[q] != c,
        ensures
            j <= v@.len(),
            forall|q: int| j <= q < v@.len() ==> #[trigger] v@[q] != c,
            j > 0 ==> v@[j - 1] == c,
        decreases j,
    {
        if v[j - 1] == c {
            break;
        }
        j = j - 1;
    }
    if j == 0 {
        None
    } else {
        proof {
            match last_index_of(v@, c) {
                Some(p) => {
                    if p > j - 1 {
                        assert(v@[p] != c);
                    } else if p < j - 1 {
                        assert(v@[j - 1] != c);
                    }
                },
                None => {
                    assert(v@[j - 1] != c);
                },
            }
        }
        Some(j - 1)
    }
}

/// Relies on `String::push`: appends one character at the end.
#[verifier::external_body]
fn push_char(s: &mut String, c: char)
    ensures
        final(s)@ == old(s)@.push(c),
{
    s.push(c);
}

/// The characters of `s`, in order.
pub fn chars_of(s: &str) -> (r: Vec<char>)
    ensures
        r@ == s@,
{
    let mut out: Vec<char> = Vec::new();
    for c in it: s.chars()
        invariant
            out@ == it.seq().subrange(0, it.index() as int),
            it.seq() == s@,
    {
        out.push(c);
    }
    assert(out@ =~= s@);
    out
}

/// A string holding the characters `v[from..to]`, in order.
pub fn string_of(v: &[char], from: usize, to: usize) -> (r: String)
    requires
        from <= to <= v@.len(),
    ensures
        r@ == v@.subrange(from as int, to as int),
{
    let mut out = String::new();
    let mut i: usize = from;
    while i < to
        invariant
            from <= i <= to <= v@.len(),
            out@ == v@.subrange(from as int, i as int),
        decreases to - i,
    {
        push_char(&mut out, v[i]);
        i = i + 1;
        assert(out@ =~= v@.subrange(from as int, i as int));
    }
    out
}

} // verus!
