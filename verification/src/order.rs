//! Lexicographic ordering of names.
//!
//! Names are compared by their sequences of characters, code point by code
//! point.  This order is total and is the basis for canonical pair ordering,
//! tie-breaks and deterministic output everywhere in the crate.
use vstd::prelude::*;

verus! {

use vstd::string::StrSliceExecFns;

/// Strict lexicographic order on character sequences, by code point.
pub open spec fn lex_lt(a: Seq<char>, b: Seq<char>) -> bool
    decreases a.len(),
{
    if b.len() == 0 {
        false
    } else if a.len() == 0 {
        true
    } else if a[0] != b[0] {
        a[0] < b[0]
    } else {
        lex_lt(a.drop_first(), b.drop_first())
    }
}

/// Reflexive closure of `lex_lt`.
pub open spec fn lex_le(a: Seq<char>, b: Seq<char>) -> bool {
    lex_lt(a, b) || a == b
}

/// A sequence of names in strictly ascending lexicographic order.
pub open spec fn sorted_strict(s: Seq<Seq<char>>) -> bool {
    forall|i: int, j: int| 0 <= i < j < s.len() ==> lex_lt(s[i], s[j])
}

pub proof fn lemma_lex_lt_irrefl(a: Seq<char>)
    ensures
        !lex_lt(a, a),
    decreases a.len(),
{
    if a.len() > 0 {
        lemma_lex_lt_irrefl(a.drop_first());
    }
}

pub proof fn lemma_lex_lt_asym(a: Seq<char>, b: Seq<char>)
    ensures
        !(lex_lt(a, b) && lex_lt(b, a)),
    decreases a.len(),
{
    if a.len() > 0 && b.len() > 0 && a[0] == b[0] {
        lemma_lex_lt_asym(a.drop_first(), b.drop_first());
    }
}

pub proof fn lemma_lex_lt_total(a: Seq<char>, b: Seq<char>)
    ensures
        lex_lt(a, b) || lex_lt(b, a) || a == b,
    decreases a.len(),
{
    if b.len() == 0 {
        if a.len() == 0 {
            assert(a =~= b);
        }
    } else if a.len() == 0 {
        assert(lex_lt(a, b));
    } else if a[0] != b[0] {
        if a[0] < b[0] {
            assert(lex_lt(a, b));
        } else {
            assert(lex_lt(b, a));
        }
    } else {
        lemma_lex_lt_total(a.drop_first(), b.drop_first());
        if !lex_lt(a, b) && !lex_lt(b, a) {
            assert(a.drop_first() == b.drop_first());
            assert(a =~= b) by {
                assert(a.drop_first().len() == b.drop_first().len());
                assert forall|i: int| 0 <= i < a.len() implies a[i] == b[i] by {
                    if i > 0 {
                        assert(a[i] == a.drop_first()[i - 1]);
                        assert(b[i] == b.drop_first()[i - 1]);
                    }
                }
            }
        }
    }
}

pub proof fn lemma_lex_lt_trans(a: Seq<char>, b: Seq<char>, c: Seq<char>)
    requires
        lex_lt(a, b),
        lex_lt(b, c),
    ensures
        lex_lt(a, c),
    decreases a.len(),
{
    if a.len() == 0 {
    } else {
        if a[0] == b[0] {
            if b[0] == c[0] {
                lemma_lex_lt_trans(a.drop_first(), b.drop_first(), c.drop_first());
            }
        }
    }
}

pub proof fn lemma_lex_le_antisym(a: Seq<char>, b: Seq<char>)
    requires
        lex_le(a, b),
        lex_le(b, a),
    ensures
        a == b,
{
    lemma_lex_lt_asym(a, b);
}

/// In a strictly sorted sequence, order of elements decides order of indices.
pub proof fn lemma_sorted_position(s: Seq<Seq<char>>, i: int, j: int)
    requires
        sorted_strict(s),
        0 <= i < s.len(),
        0 <= j < s.len(),
        lex_lt(s[i], s[j]),
    ensures
        i < j,
{
    if i == j {
        lemma_lex_lt_irrefl(s[i]);
    }
    if i > j {
        lemma_lex_lt_asym(s[i], s[j]);
    }
}

/// In a strictly sorted sequence, `index_of` recovers each position.
pub proof fn lemma_index_of_sorted(s: Seq<Seq<char>>, i: int)
    requires
        sorted_strict(s),
        0 <= i < s.len(),
    ensures
        s.index_of(s[i]) == i,
{
    assert(s.contains(s[i]));
    let k = s.index_of(s[i]);
    assert(0 <= k < s.len() && s[k] == s[i]);
    if k < i {
        assert(lex_lt(s[k], s[i]));
        lemma_lex_lt_irrefl(s[i]);
    }
    if k > i {
        assert(lex_lt(s[i], s[k]));
        lemma_lex_lt_irrefl(s[i]);
    }
}

/// When the first `i` characters agree, the order is decided by the rest.
pub proof fn lemma_lex_lt_common_prefix(a: Seq<char>, b: Seq<char>, i: int)
    requires
        0 <= i <= a.len(),
        i <= b.len(),
        forall|j: int| 0 <= j < i ==> a[j] == b[j],
    ensures
        lex_lt(a, b) == lex_lt(a.skip(i), b.skip(i)),
    decreases i,
{
    if i > 0 {
        assert(a[0] == b[0]);
        assert forall|j: int| 0 <= j < i - 1 implies a.drop_first()[j] == b.drop_first()[j] by {
            assert(a.drop_first()[j] == a[j + 1]);
            assert(b.drop_first()[j] == b[j + 1]);
        }
        lemma_lex_lt_common_prefix(a.drop_first(), b.drop_first(), i - 1);
        assert(a.drop_first().skip(i - 1) =~= a.skip(i));
        assert(b.drop_first().skip(i - 1) =~= b.skip(i));
    } else {
        assert(a.skip(0) =~= a);
        assert(b.skip(0) =~= b);
    }
}

/// Decides `lex_lt` on two string slices.
pub fn str_lt(a: &str, b: &str) -> (r: bool)
    ensures
        r == lex_lt(a@, b@),
{
    let a_len = a.unicode_len();
    let b_len = b.unicode_len();
    let mut i: usize = 0;
    loop
        invariant
            i <= a_len,
            i <= b_len,
            a_len == a@.len(),
            b_len == b@.len(),
            forall|j: int| 0 <= j < i ==> a@[j] == b@[j],
        decreases a_len - i,
    {
        proof {
            lemma_lex_lt_common_prefix(a@, b@, i as int);
        }
        if i == b_len {
            return false;
        }
        if i == a_len {
            return true;
        }
        let ca = a.get_char(i);
        let cb = b.get_char(i);
        if ca != cb {
            assert(a@.skip(i as int)[0] == ca);
            assert(b@.skip(i as int)[0] == cb);
            return ca < cb;
        }
        i = i + 1;
    }
}

/// Decides view equality of two string slices.
pub fn str_eq(a: &str, b: &str) -> (r: bool)
    ensures
        r == (a@ == b@),
{
    let a_len = a.unicode_len();
    let b_len = b.unicode_len();
    if a_len != b_len {
        return false;
    }
    let mut i: usize = 0;
    while i < a_len
        invariant
            i <= a_len,
            a_len == a@.len(),
            a_len == b@.len(),
            forall|j: int| 0 <= j < i ==> a@[j] == b@[j],
        decreases a_len - i,
    {
        if a.get_char(i) != b.get_char(i) {
            return false;
        }
        i = i + 1;
    }
    proof {
        assert(a@ =~= b@);
    }
    true
}

/// Decides view equality of two name vectors.
pub fn names_equal(a: &Vec<String>, b: &Vec<String>) -> (r: bool)
    ensures
        r == (a.deep_view() == b.deep_view()),
{
    if a.len() != b.len() {
        proof {
            assert(a.deep_view().len() == a@.len());
            assert(b.deep_view().len() == b@.len());
        }
        return false;
    }
    let mut i: usize = 0;
    while i < a.len()
        invariant
            i <= a.len(),
            a.len() == b.len(),
            forall|j: int| 0 <= j < i ==> a.deep_view()[j] == b.deep_view()[j],
        decreases a.len() - i,
    {
        if !str_eq(a[i].as_str(), b[i].as_str()) {
            proof {
                assert(a.deep_view()[i as int] != b.deep_view()[i as int]);
            }
            return false;
        }
        i = i + 1;
    }
    proof {
        assert(a.deep_view() =~= b.deep_view());
    }
    true
}

/// Looks a name up in a vector of names.
pub fn find_name(v: &Vec<String>, s: &str) -> (r: Option<usize>)
    ensures
        match r {
            Some(i) => i < v.len() && v.deep_view()[i as int] == s@,
            None => !v.deep_view().contains(s@),
        },
{
    let mut i: usize = 0;
    while i < v.len()
        invariant
            i <= v.len(),
            forall|j: int| 0 <= j < i ==> v.deep_view()[j] != s@,
        decreases v.len() - i,
    {
        if str_eq(v[i].as_str(), s) {
            return Some(i);
        }
        i = i + 1;
    }
    None
}

/// Inserts a name into a strictly sorted vector, keeping it sorted and
/// ignoring a name that is already present.
pub fn insert_name(v: &mut Vec<String>, s: String)
    requires
        sorted_strict(old(v).deep_view()),
    ensures
        sorted_strict(final(v).deep_view()),
        final(v).deep_view().to_set() == old(v).deep_view().to_set().insert(s@),
{
    let ghost old_seq = v.deep_view();
    let mut i: usize = 0;
    while i < v.len() && str_lt(v[i].as_str(), s.as_str())
        invariant
            i <= v.len(),
            v.deep_view() == old_seq,
            sorted_strict(old_seq),
            forall|j: int| 0 <= j < i ==> lex_lt(old_seq[j], s@),
        decreases v.len() - i,
    {
        i = i + 1;
    }
    if i < v.len() && str_eq(v[i].as_str(), s.as_str()) {
        proof {
            assert(old_seq[i as int] == s@);
            assert(old_seq.contains(s@));
            assert(old_seq.to_set().contains(s@));
            assert(old_seq.to_set() =~= old_seq.to_set().insert(s@));
        }
        return ;
    }
    proof {
        if i < v.len() {
            lemma_lex_lt_total(old_seq[i as int], s@);
            assert(lex_lt(s@, old_seq[i as int]));
        }
    }
    v.insert(i, s);
    proof {
        let new_seq = v.deep_view();
        assert(new_seq =~= old_seq.insert(i as int, s@));
        assert(new_seq == old_seq.insert(i as int, s@));
        assert forall|p: int, q: int| 0 <= p < q < new_seq.len() implies lex_lt(
            new_seq[p],
            new_seq[q],
        ) by {
            let ii = i as int;
            if p < ii && q == ii {
            } else if p == ii && q > ii {
                assert(new_seq[q] == old_seq[q - 1]);
                if q - 1 > ii {
                    lemma_lex_lt_trans(s@, old_seq[ii], old_seq[q - 1]);
                }
            } else if p < ii && q > ii {
                assert(new_seq[p] == old_seq[p]);
                assert(new_seq[q] == old_seq[q - 1]);
                if q - 1 > p {
                } else {
                    assert(q - 1 == p);
                    assert(lex_lt(old_seq[p], s@));
                    assert(lex_lt(s@, old_seq[ii]));
                }
            } else if p > ii && q > ii {
                assert(new_seq[p] == old_seq[p - 1]);
                assert(new_seq[q] == old_seq[q - 1]);
            } else {
                assert(p < ii && q < ii);
            }
        }
        assert(new_seq.to_set() =~= old_seq.to_set().insert(s@)) by {
            assert forall|x: Seq<char>| new_seq.to_set().contains(x) implies old_seq.to_set()
                .insert(s@).contains(x) by {
                let k = choose|k: int| 0 <= k < new_seq.len() && new_seq[k] == x;
                if k < i as int {
                    assert(old_seq[k] == x);
                    assert(old_seq.contains(x));
                } else if k == i as int {
                } else {
                    assert(old_seq[k - 1] == x);
                    assert(old_seq.contains(x));
                }
            }
            assert forall|x: Seq<char>| old_seq.to_set().insert(s@).contains(x)
                implies new_seq.to_set().contains(x) by {
                if x == s@ {
                    assert(new_seq[i as int] == x);
                    assert(new_seq.contains(x));
                } else {
                    let k = choose|k: int| 0 <= k < old_seq.len() && old_seq[k] == x;
                    if k < i as int {
                        assert(new_seq[k] == x);
                    } else {
                        assert(new_seq[k + 1] == x);
                    }
                    assert(new_seq.contains(x));
                }
            }
        }
    }
}

} // verus!
