//! Lexicographic order on font family names, with the comparison function the
//! catalog is sorted by and the facts about that order the catalog proofs use.

use vstd::prelude::*;

verus! {

/// Strict lexicographic order on character sequences, by Unicode scalar value.
pub open spec fn lex_lt(a: Seq<char>, b: Seq<char>) -> bool
    decreases a.len(),
{
    if b.len() == 0 {
        false
    } else if a.len() == 0 {
        true
    } else if a[0] == b[0] {
        lex_lt(a.drop_first(), b.drop_first())
    } else {
        (a[0] as int) < (b[0] as int)
    }
}

/// A catalog is sorted strictly: later entries are strictly greater, so no
/// entry repeats anywhere, adjacent or not.
pub open spec fn strictly_sorted(s: Seq<Seq<char>>) -> bool {
    forall|i: int, j: int| 0 <= i < j < s.len() ==> lex_lt(s[i], s[j])
}

pub proof fn lemma_lex_lt_irreflexive(a: Seq<char>)
    ensures
        !lex_lt(a, a),
    decreases a.len(),
{
    if a.len() != 0 {
        lemma_lex_lt_irreflexive(a.drop_first());
    }
}

pub proof fn lemma_lex_lt_transitive(a: Seq<char>, b: Seq<char>, c: Seq<char>)
    requires
        lex_lt(a, b),
        lex_lt(b, c),
    ensures
        lex_lt(a, c),
    decreases a.len(),
{
    if a.len() != 0 && a[0] == b[0] && b[0] == c[0] {
        lemma_lex_lt_transitive(a.drop_first(), b.drop_first(), c.drop_first());
    }
}

pub proof fn lemma_lex_lt_asymmetric(a: Seq<char>, b: Seq<char>)
    requires
        lex_lt(a, b),
    ensures
        !lex_lt(b, a),
{
    if lex_lt(b, a) {
        lemma_lex_lt_transitive(a, b, a);
        lemma_lex_lt_irreflexive(a);
    }
}

/// Any two distinct names are ordered one way or the other.
pub proof fn lemma_lex_lt_connected(a: Seq<char>, b: Seq<char>)
    ensures
        a == b || lex_lt(a, b) || lex_lt(b, a),
    decreases a.len(),
{
    if a.len() == 0 && b.len() == 0 {
        assert(a =~= b);
    } else if a.len() == 0 {
        assert(lex_lt(a, b));
    } else if b.len() == 0 {
        assert(lex_lt(b, a));
    } else if a[0] == b[0] {
        lemma_lex_lt_connected(a.drop_first(), b.drop_first());
        if a.drop_first() == b.drop_first() {
            assert(a =~= Seq::empty().push(a[0]) + a.drop_first());
            assert(b =~= Seq::empty().push(b[0]) + b.drop_first());
        }
    } else {
        assert(lex_lt(a, b) || lex_lt(b, a));
    }
}

fn str_lt_from(a: &str, b: &str, i: usize) -> (r: bool)
    requires
        i <= a@.len(),
        i <= b@.len(),
    ensures
        r == lex_lt(a@.skip(i as int), b@.skip(i as int)),
    decreases a@.len() - i,
{
    let bl = b.unicode_len();
    if i == bl {
        false
    } else {
        let al = a.unicode_len();
        if i == al {
            true
        } else {
            let ca = a.get_char(i);
            let cb = b.get_char(i);
            if ca == cb {
                let r = str_lt_from(a, b, i + 1);
                proof {
                    assert(a@.skip(i as int).drop_first() =~= a@.skip(i as int + 1));
                    assert(b@.skip(i as int).drop_first() =~= b@.skip(i as int + 1));
                }
                r
            } else {
                let r = (ca as u32) < (cb as u32);
                proof {
                    assert(r == ((ca as int) < (cb as int)));
                }
                r
            }
        }
    }
}

/// Decides the order two names are sorted in: strictly less, by scalar value.
pub fn str_lt(a: &str, b: &str) -> (r: bool)
    ensures
        r == lex_lt(a@, b@),
{
    let r = str_lt_from(a, b, 0);
    proof {
        assert(a@.skip(0) =~= a@);
        assert(b@.skip(0) =~= b@);
    }
    r
}

/// A sorted catalog holds no adjacent duplicates: adjacent entries differ.
pub proof fn lemma_sorted_no_adjacent_duplicates(s: Seq<Seq<char>>)
    requires
        strictly_sorted(s),
    ensures
        forall|i: int| 0 <= i < s.len() - 1 ==> #[trigger] s[i] != s[i + 1],
{
    assert forall|i: int| 0 <= i < s.len() - 1 implies #[trigger] s[i] != s[i + 1] by {
        assert(lex_lt(s[i], s[i + 1]));
        lemma_lex_lt_irreflexive(s[i]);
    }
}

/// A strictly sorted sequence is determined by the set of names it holds: two
/// sorted catalogs with the same members are the same catalog.
pub proof fn lemma_strictly_sorted_unique(a: Seq<Seq<char>>, b: Seq<Seq<char>>)
    requires
        strictly_sorted(a),
        strictly_sorted(b),
        forall|n: Seq<char>| a.contains(n) <==> b.contains(n),
    ensures
        a == b,
    decreases a.len(),
{
    if a.len() == 0 {
        if b.len() > 0 {
            assert(b.contains(b[0]));
        }
        assert(a =~= b);
    } else if b.len() == 0 {
        assert(a.contains(a[0]));
    } else {
        assert(a.contains(a[0]));
        assert(b.contains(b[0]));
        let j = choose|j: int| 0 <= j < b.len() && b[j] == a[0];
        let i = choose|i: int| 0 <= i < a.len() && a[i] == b[0];
        if i > 0 && j > 0 {
            lemma_lex_lt_transitive(a[0], a[i], b[j]);
            lemma_lex_lt_irreflexive(a[0]);
        }
        assert(a[0] == b[0]);
        assert forall|n: Seq<char>| a.drop_first().contains(n) <==> b.drop_first().contains(
            n,
        ) by {
            lemma_drop_first_contains(a, n);
            lemma_drop_first_contains(b, n);
        }
        lemma_strictly_sorted_unique(a.drop_first(), b.drop_first());
        assert(a =~= Seq::empty().push(a[0]) + a.drop_first());
        assert(b =~= Seq::empty().push(b[0]) + b.drop_first());
    }
}

/// In a strictly sorted sequence the tail holds exactly the members other than
/// the head.
proof fn lemma_drop_first_contains(s: Seq<Seq<char>>, n: Seq<char>)
    requires
        strictly_sorted(s),
        s.len() > 0,
    ensures
        s.drop_first().contains(n) <==> (s.contains(n) && n != s[0]),
{
    if s.drop_first().contains(n) {
        let k = choose|k: int| 0 <= k < s.drop_first().len() && s.drop_first()[k] == n;
        assert(s[k + 1] == n);
        assert(s.contains(n));
        assert(lex_lt(s[0], s[k + 1]));
        lemma_lex_lt_irreflexive(s[0]);
    }
    if s.contains(n) && n != s[0] {
        let k = choose|k: int| 0 <= k < s.len() && s[k] == n;
        assert(s.drop_first()[k - 1] == n);
        assert(s.drop_first().contains(n));
    }
}

} // verus!
