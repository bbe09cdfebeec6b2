//! Text helpers: lowercasing, substring search, and conversions between
//! strings and character vectors.

use vstd::prelude::*;
use vstd::string::StrSliceExecFns;

verus! {

/// The sequence of characters that `str::to_lowercase` yields for `s`.
pub uninterp spec fn minuscule_de(s: Seq<char>) -> Seq<char>;

/// Relies on str::to_lowercase: the result is a function of the characters
/// alone, and the lowercase form of the empty string is empty.
#[verifier::external_body]
pub(crate) fn en_minuscules(s: &str) -> (r: String)
    ensures
        r@ == minuscule_de(s@),
        s@.len() == 0 ==> r@.len() == 0,
{
    s.to_lowercase()
}

/// Relies on char::from_u32: for a value below the surrogate range it
/// returns the character with that scalar value.
#[verifier::external_body]
pub(crate) fn char_depuis(v: u32) -> (c: char)
    requires
        v < 0xD800,
    ensures
        c as u32 == v,
{
    char::from_u32(v).unwrap()
}

/// Relies on String's FromIterator over chars: the characters of the
/// result are exactly those of the vector, in order.
#[verifier::external_body]
pub(crate) fn chaine_depuis(v: &Vec<char>) -> (r: String)
    ensures
        r@ == v@,
{
    v.iter().collect()
}

/// `aiguille` occurs contiguously inside `meule`.
pub open spec fn est_sous_chaine(aiguille: Seq<char>, meule: Seq<char>) -> bool {
    exists|d: int|
        0 <= d && d + aiguille.len() <= meule.len() && #[trigger] meule.subrange(
            d,
            d + aiguille.len() as int,
        ) == aiguille
}

/// The empty sequence occurs inside every sequence.
pub proof fn lemme_sous_chaine_vide(aiguille: Seq<char>, meule: Seq<char>)
    requires
        aiguille.len() == 0,
    ensures
        est_sous_chaine(aiguille, meule),
{
    assert(meule.subrange(0, 0 + aiguille.len() as int) =~= aiguille);
}

/// The characters of `s`, in order, as a vector.
pub fn vers_chars(s: &str) -> (r: Vec<char>)
    ensures
        r@ == s@,
{
    let n = s.unicode_len();
    let mut r: Vec<char> = Vec::new();
    let mut i: usize = 0;
    while i < n
        invariant
            n == s@.len(),
            i <= n,
            r@ == s@.take(i as int),
        decreases n - i,
    {
        let c = s.get_char(i);
        r.push(c);
        i += 1;
        proof {
            assert(s@.take(i as int) =~= s@.take(i - 1).push(s@[i - 1]));
        }
    }
    proof {
        assert(s@.take(n as int) =~= s@);
    }
    r
}

/// Whether `aiguille` matches `meule` starting at position `d`.
fn egal_a_partir(meule: &str, aiguille: &str, d: usize) -> (r: bool)
    requires
        d + aiguille@.len() <= meule@.len(),
        meule@.len() <= usize::MAX,
    ensures
        r == (meule@.subrange(d as int, d + aiguille@.len()) == aiguille@),
{
    let n = aiguille.unicode_len();
    let mut j: usize = 0;
    while j < n
        invariant
            n == aiguille@.len(),
            d + n <= meule@.len(),
            meule@.len() <= usize::MAX,
            j <= n,
            forall|k: int| 0 <= k < j ==> meule@[d + k] == aiguille@[k],
        decreases n - j,
    {
        if meule.get_char(d + j) != aiguille.get_char(j) {
            assert(meule@.subrange(d as int, d + aiguille@.len())[j as int] != aiguille@[j as int]);
            return false;
        }
        j += 1;
    }
    proof {
        assert(meule@.subrange(d as int, d + aiguille@.len()) =~= aiguille@);
    }
    true
}

/// Whether `aiguille` occurs contiguously inside `meule`.
pub fn contient(meule: &str, aiguille: &str) -> (r: bool)
    ensures
        r == est_sous_chaine(aiguille@, meule@),
{
    let m = meule.unicode_len();
    let n = aiguille.unicode_len();
    if n > m {
        return false;
    }
    if n == 0 {
        proof {
            lemme_sous_chaine_vide(aiguille@, meule@);
        }
        return true;
    }
    let mut d: usize = 0;
    while d <= m - n
        invariant
            m == meule@.len(),
            n == aiguille@.len(),
            1 <= n <= m,
            d <= m - n + 1,
            forall|dd: int|
                0 <= dd < d ==> #[trigger] meule@.subrange(dd, dd + aiguille@.len() as int)
                    != aiguille@,
        decreases m - n - d + 1,
    {
        if egal_a_partir(meule, aiguille, d) {
            return true;
        }
        d += 1;
    }
    false
}

} // verus!
