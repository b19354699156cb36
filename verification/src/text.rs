//! Character-level helpers shared by the type database and the orderer: the
//! dead (namespace-flattened) spelling of a name, and joining rendered pieces
//! with a separator.

use vstd::prelude::*;

verus! {

/// The dead spelling of a name: every namespace separator `::` replaced by a
/// single underscore, scanning left to right without overlap.
pub open spec fn dead_spelling(s: Seq<char>) -> Seq<char>
    decreases s.len(),
{
    if s.len() >= 2 && s[0] == ':' && s[1] == ':' {
        seq!['_'] + dead_spelling(s.skip(2))
    } else if s.len() >= 1 {
        seq![s[0]] + dead_spelling(s.skip(1))
    } else {
        Seq::<char>::empty()
    }
}

/// The parts written one after another, with `sep` between consecutive parts.
pub open spec fn joined_with(parts: Seq<Seq<char>>, sep: Seq<char>) -> Seq<char>
    decreases parts.len(),
{
    if parts.len() == 0 {
        Seq::<char>::empty()
    } else if parts.len() == 1 {
        parts[0]
    } else {
        parts[0] + sep + joined_with(parts.drop_first(), sep)
    }
}

/// A name without a namespace separator is its own dead spelling.
pub proof fn lemma_dead_spelling_no_sep(s: Seq<char>)
    requires
        forall|i: int| 0 <= i < s.len() ==> s[i] != ':',
    ensures
        dead_spelling(s) == s,
    decreases s.len(),
{
    if s.len() == 0 {
        assert(dead_spelling(s) =~= s);
    } else {
        lemma_dead_spelling_no_sep(s.skip(1));
        assert(seq![s[0]] + s.skip(1) =~= s);
    }
}

/// Computes the dead spelling of `s` as a character vector.
pub fn flatten_name(s: &str) -> (r: Vec<char>)
    ensures
        r@ == dead_spelling(s@),
{
    let n = s.unicode_len();
    let mut out: Vec<char> = Vec::new();
    let mut i: usize = 0;
    proof {
        assert(s@.skip(0) =~= s@);
        assert(out@ + dead_spelling(s@) =~= dead_spelling(s@));
    }
    while i < n
        invariant
            i <= n,
            n == s@.len(),
            dead_spelling(s@) == out@ + dead_spelling(s@.skip(i as int)),
        decreases n - i,
    {
        let c = s.get_char(i);
        let is_sep = c == ':' && i + 1 < n && s.get_char(i + 1) == ':';
        if is_sep {
            out.push('_');
            proof {
                let rest = s@.skip(i as int);
                assert(rest.len() >= 2 && rest[0] == ':' && rest[1] == ':');
                assert(rest.skip(2) =~= s@.skip(i + 2));
                assert(out@ + dead_spelling(s@.skip(i + 2)) =~= (out@.drop_last() + (seq!['_']
                    + dead_spelling(rest.skip(2)))));
            }
            i = i + 2;
        } else {
            out.push(c);
            proof {
                let rest = s@.skip(i as int);
                assert(rest.len() >= 1 && rest[0] == c);
                assert(!(rest.len() >= 2 && rest[0] == ':' && rest[1] == ':')) by {
                    if rest.len() >= 2 && rest[0] == ':' && rest[1] == ':' {
                        assert(s@[i + 1] == ':');
                    }
                }
                assert(rest.skip(1) =~= s@.skip(i + 1));
                assert(out@ + dead_spelling(s@.skip(i + 1)) =~= (out@.drop_last() + (seq![c]
                    + dead_spelling(rest.skip(1)))));
            }
            i = i + 1;
        }
    }
    proof {
        assert(s@.skip(n as int) =~= Seq::<char>::empty());
        assert(out@ + Seq::<char>::empty() =~= out@);
    }
    out
}

/// Whether the characters of `v` spell exactly `s`.
pub fn chars_eq_str(v: &Vec<char>, s: &str) -> (b: bool)
    ensures
        b == (v@ == s@),
{
    let n = s.unicode_len();
    if v.len() != n {
        proof {
            if v@ == s@ {
                assert(v@.len() == s@.len());
            }
        }
        return false;
    }
    let mut i: usize = 0;
    while i < n
        invariant
            i <= n,
            n == s@.len(),
            v@.len() == n,
            forall|j: int| 0 <= j < i ==> v@[j] == s@[j],
        decreases n - i,
    {
        if v[i] != s.get_char(i) {
            proof {
                if v@ == s@ {
                    assert(v@[i as int] == s@[i as int]);
                }
            }
            return false;
        }
        i = i + 1;
    }
    proof {
        assert(v@ =~= s@);
    }
    true
}

/// Relies on `itertools::join`: it writes each element once, in order, with
/// the separator between consecutive elements, through the element's
/// `Display`, which for `String` prints the string's own characters.
#[verifier::external_body]
pub(crate) fn join_all(parts: &Vec<String>, sep: &str) -> (r: String)
    ensures
        r@ == joined_with(parts.deep_view(), sep@),
{
    itertools::join(parts.iter(), sep)
}

} // verus!
