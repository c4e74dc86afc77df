//! Character-level helpers shared by the loader, the header normalizer
//! and the writer.
use vstd::prelude::*;
use vstd::string::StrSliceExecFns;

verus! {

/// The characters of a string, as a vector.
pub fn to_chars(s: &str) -> (out: Vec<char>)
    ensures
        out@ == s@,
{
    let n = s.unicode_len();
    let mut out: Vec<char> = Vec::new();
    let mut i: usize = 0;
    while i < n
        invariant
            n == s@.len(),
            i <= n,
            out@ == s@.take(i as int),
        decreases n - i,
    {
        let c = s.get_char(i);
        out.push(c);
        proof {
            assert(out@ =~= s@.take(i + 1));
        }
        i += 1;
    }
    proof {
        assert(s@.take(n as int) =~= s@);
    }
    out
}

/// Relies on `String`'s `FromIterator<char>`: collecting characters
/// concatenates exactly those characters, in order, into a string.
#[verifier::external_body]
pub fn chars_to_string(v: &Vec<char>) -> (s: String)
    ensures
        s@ == v@,
{
    v.iter().collect()
}

/// The string with every occurrence of `pat` removed, scanning left to
/// right and never rescanning text that replaced a match.
pub open spec fn remove_all(s: Seq<char>, pat: Seq<char>) -> Seq<char>
    decreases s.len(),
{
    if s.len() == 0 {
        s
    } else if pat.len() >= 1 && pat.len() <= s.len() && s.take(pat.len() as int) == pat {
        remove_all(s.skip(pat.len() as int), pat)
    } else {
        seq![s[0]] + remove_all(s.skip(1), pat)
    }
}

/// Whether `pat` stands at position `i` of `v`.
fn matches_at(v: &Vec<char>, i: usize, pat: &Vec<char>) -> (b: bool)
    requires
        i <= v@.len(),
    ensures
        b == (pat@.len() <= v@.len() - i && v@.skip(i as int).take(pat@.len() as int) == pat@),
{
    let n = v.len();
    let plen = pat.len();
    if plen > n - i {
        return false;
    }
    let mut k: usize = 0;
    while k < plen
        invariant
            n == v@.len(),
            plen == pat@.len(),
            i + plen <= n,
            k <= pat@.len(),
            forall|m: int| 0 <= m < k ==> v@[i + m] == pat@[m],
        decreases pat@.len() - k,
    {
        if v[i + k] != pat[k] {
            proof {
                assert(v@.skip(i as int).take(pat@.len() as int)[k as int] == v@[i + k]);
            }
            return false;
        }
        k += 1;
    }
    proof {
        assert(v@.skip(i as int).take(pat@.len() as int) =~= pat@);
    }
    true
}

/// Remove every occurrence of `pat` from `s`, scanning left to right.
pub fn remove_occurrences(s: &str, pat: &str) -> (out: String)
    requires
        pat@.len() >= 1,
    ensures
        out@ == remove_all(s@, pat@),
{
    let v = to_chars(s);
    let p = to_chars(pat);
    let mut out: Vec<char> = Vec::new();
    let mut i: usize = 0;
    proof {
        assert(v@.skip(0) =~= v@);
        assert(Seq::<char>::empty() + remove_all(v@, pat@) =~= remove_all(v@, pat@));
    }
    while i < v.len()
        invariant
            v@ == s@,
            p@ == pat@,
            pat@.len() >= 1,
            i <= v@.len(),
            remove_all(s@, pat@) == out@ + remove_all(v@.skip(i as int), pat@),
        decreases v@.len() - i,
    {
        if matches_at(&v, i, &p) {
            proof {
                assert(v@.skip(i as int).skip(pat@.len() as int) =~= v@.skip(
                    i + pat@.len() as int,
                ));
            }
            i += p.len();
        } else {
            proof {
                assert(v@.skip(i as int)[0] == v@[i as int]);
                assert(v@.skip(i as int).skip(1) =~= v@.skip(i + 1));
                assert((out@ + seq![v@[i as int]]) + remove_all(v@.skip(i + 1), pat@) =~= out@ + (
                seq![v@[i as int]] + remove_all(v@.skip(i + 1), pat@)));
            }
            let c = v[i];
            out.push(c);
            i += 1;
        }
    }
    proof {
        assert(v@.skip(v@.len() as int) =~= Seq::<char>::empty());
        assert(out@ + Seq::<char>::empty() =~= out@);
    }
    chars_to_string(&out)
}

} // verus!
