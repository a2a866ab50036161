//! The font catalog and its cache: which family names are accepted, how the
//! catalog is assembled from what the host reports, and the state the cache
//! steps through when the UI queries it.

use vstd::prelude::*;
use crate::order::lex_lt;
use crate::order::strictly_sorted;
use crate::order::str_lt;

verus! {

/// What `char::is_alphabetic` returns; the Unicode class is a function of the
/// character alone, so the result only gets a name here.
pub uninterp spec fn alpha_of(c: char) -> bool;

/// Relies on `char::is_alphabetic`: whether the character is in the Unicode
/// Alphabetic class, a function of the character alone.
pub assume_specification[ char::is_alphabetic ](c: char) -> (r: bool)
    ensures
        r == alpha_of(c),
;

/// A character a font family name may hold: ASCII, or alphabetic.
pub open spec fn valid_font_char(c: char) -> bool {
    (c as u32) < 128 || alpha_of(c)
}

/// A family name the catalog accepts: non-empty, every character valid.
pub open spec fn valid_font_name(s: Seq<char>) -> bool {
    s.len() > 0 && forall|i: int| 0 <= i < s.len() ==> valid_font_char(#[trigger] s[i])
}

/// Decides whether a family name reported by the host is kept.
pub fn is_valid_font_name(s: &str) -> (r: bool)
    ensures
        r == valid_font_name(s@),
{
    let len = s.unicode_len();
    if len == 0 {
        return false;
    }
    let mut i: usize = 0;
    while i < len
        invariant
            i <= len,
            len == s@.len(),
            forall|j: int| 0 <= j < i ==> valid_font_char(#[trigger] s@[j]),
        decreases len - i,
    {
        let c = s.get_char(i);
        if !((c as u32) < 128 || c.is_alphabetic()) {
            return false;
        }
        i += 1;
    }
    true
}

/// The fixed fallback families, present in every catalog the library returns.
pub open spec fn fallback_seq() -> Seq<Seq<char>> {
    seq![
        "Arial"@,
        "Times New Roman"@,
        "Helvetica"@,
        "Courier New"@,
        "Georgia"@,
        "Verdana"@,
        "Inter"@,
    ]
}

/// The fallback families in catalog order.
pub open spec fn sorted_fallback() -> Seq<Seq<char>> {
    seq![
        "Arial"@,
        "Courier New"@,
        "Georgia"@,
        "Helvetica"@,
        "Inter"@,
        "Times New Roman"@,
        "Verdana"@,
    ]
}

/// Which names belong in the catalog for a given host report: every fallback
/// name, and every valid name the host reported. A report of `None` means
/// enumeration itself failed.
pub open spec fn catalog_member(host: Option<Seq<Seq<char>>>, n: Seq<char>) -> bool {
    ||| fallback_seq().contains(n)
    ||| (host matches Some(report) && report.contains(n) && valid_font_name(n))
}

/// Insertion into a sorted catalog: before the first entry not less than the
/// name, and not at all if that entry is the name itself.
pub open spec fn sorted_insert(s: Seq<Seq<char>>, x: Seq<char>) -> Seq<Seq<char>>
    decreases s.len(),
{
    if s.len() == 0 {
        seq![x]
    } else if x == s[0] {
        s
    } else if lex_lt(x, s[0]) {
        seq![x] + s
    } else {
        seq![s[0]] + sorted_insert(s.drop_first(), x)
    }
}

/// Inserting keeps the catalog sorted and adds exactly the one name.
pub proof fn lemma_sorted_insert_props(s: Seq<Seq<char>>, x: Seq<char>)
    requires
        strictly_sorted(s),
    ensures
        strictly_sorted(sorted_insert(s, x)),
        forall|n: Seq<char>|
            #[trigger] sorted_insert(s, x).contains(n) <==> s.contains(n) || n == x,
    decreases s.len(),
{
    let r = sorted_insert(s, x);
    if s.len() == 0 {
        assert(r =~= seq![x]);
        assert(r.contains(x)) by { assert(r[0] == x) };
        assert forall|n: Seq<char>| r.contains(n) implies s.contains(n) || n == x by {
            let k = choose|k: int| 0 <= k < r.len() && r[k] == n;
        }
    } else if x == s[0] {
        assert(forall|n: Seq<char>| r.contains(n) <==> s.contains(n) || n == x) by {
            assert(s.contains(x)) by { assert(s[0] == x) };
        }
    } else if lex_lt(x, s[0]) {
        assert(r =~= seq![x] + s);
        assert forall|i: int, j: int| 0 <= i < j < r.len() implies lex_lt(r[i], r[j]) by {
            if i == 0 {
                assert(r[0] == x);
                assert(r[j] == s[j - 1]);
                if j > 1 {
                    crate::order::lemma_lex_lt_transitive(x, s[0], s[j - 1]);
                }
            } else {
                assert(r[i] == s[i - 1]);
                assert(r[j] == s[j - 1]);
            }
        }
        assert forall|n: Seq<char>| r.contains(n) <==> s.contains(n) || n == x by {
            if r.contains(n) {
                let k = choose|k: int| 0 <= k < r.len() && r[k] == n;
                if k > 0 {
                    assert(s[k - 1] == n);
                    assert(s.contains(n));
                }
            }
            if s.contains(n) {
                let k = choose|k: int| 0 <= k < s.len() && s[k] == n;
                assert(r[k + 1] == n);
                assert(r.contains(n));
            }
            if n == x {
                assert(r[0] == n);
                assert(r.contains(n));
            }
        }
    } else {
        crate::order::lemma_lex_lt_connected(x, s[0]);
        assert(lex_lt(s[0], x));
        let tail = sorted_insert(s.drop_first(), x);
        assert(strictly_sorted(s.drop_first())) by {
            assert forall|i: int, j: int|
                0 <= i < j < s.drop_first().len() implies lex_lt(
                s.drop_first()[i],
                s.drop_first()[j],
            ) by {
                assert(s.drop_first()[i] == s[i + 1]);
                assert(s.drop_first()[j] == s[j + 1]);
            }
        }
        lemma_sorted_insert_props(s.drop_first(), x);
        assert(r =~= seq![s[0]] + tail);
        assert forall|i: int, j: int| 0 <= i < j < r.len() implies lex_lt(r[i], r[j]) by {
            if i == 0 {
                assert(r[j] == tail[j - 1]);
                assert(tail.contains(tail[j - 1]));
                if s.drop_first().contains(tail[j - 1]) {
                    let k = choose|k: int|
                        0 <= k < s.drop_first().len() && s.drop_first()[k] == tail[j - 1];
                    assert(s[k + 1] == tail[j - 1]);
                    assert(lex_lt(s[0], s[k + 1]));
                } else {
                    assert(tail[j - 1] == x);
                }
            } else {
                assert(r[i] == tail[i - 1]);
                assert(r[j] == tail[j - 1]);
            }
        }
        assert forall|n: Seq<char>| r.contains(n) <==> s.contains(n) || n == x by {
            if r.contains(n) {
                let k = choose|k: int| 0 <= k < r.len() && r[k] == n;
                if k == 0 {
                    assert(s[0] == n);
                    assert(s.contains(n));
                } else {
                    assert(tail[k - 1] == n);
                    assert(tail.contains(n));
                    if s.drop_first().contains(n) {
                        let m = choose|m: int|
                            0 <= m < s.drop_first().len() && s.drop_first()[m] == n;
                        assert(s[m + 1] == n);
                        assert(s.contains(n));
                    }
                }
            }
            if s.contains(n) {
                let k = choose|k: int| 0 <= k < s.len() && s[k] == n;
                if k == 0 {
                    assert(r[0] == n);
                } else {
                    assert(s.drop_first()[k - 1] == n);
                    assert(s.drop_first().contains(n));
                    assert(tail.contains(n));
                    let m = choose|m: int| 0 <= m < tail.len() && tail[m] == n;
                    assert(r[m + 1] == n);
                }
                assert(r.contains(n));
            }
            if n == x {
                assert(tail.contains(n));
                let m = choose|m: int| 0 <= m < tail.len() && tail[m] == n;
                assert(r[m + 1] == n);
                assert(r.contains(n));
            }
        }
    }
}

/// Folds a host report into the catalog, keeping only valid names.
pub open spec fn insert_valid(s: Seq<Seq<char>>, names: Seq<Seq<char>>) -> Seq<Seq<char>>
    decreases names.len(),
{
    if names.len() == 0 {
        s
    } else if valid_font_name(names[0]) {
        insert_valid(sorted_insert(s, names[0]), names.drop_first())
    } else {
        insert_valid(s, names.drop_first())
    }
}

/// Folds a list of names into the catalog unconditionally.
pub open spec fn insert_all(s: Seq<Seq<char>>, names: Seq<Seq<char>>) -> Seq<Seq<char>>
    decreases names.len(),
{
    if names.len() == 0 {
        s
    } else {
        insert_all(sorted_insert(s, names[0]), names.drop_first())
    }
}

pub proof fn lemma_insert_valid_props(s: Seq<Seq<char>>, names: Seq<Seq<char>>)
    requires
        strictly_sorted(s),
    ensures
        strictly_sorted(insert_valid(s, names)),
        forall|n: Seq<char>|
            #[trigger] insert_valid(s, names).contains(n) <==> s.contains(n) || (names.contains(n)
                && valid_font_name(n)),
    decreases names.len(),
{
    if names.len() > 0 {
        let head = names[0];
        let rest = names.drop_first();
        let s2 = if valid_font_name(head) {
            sorted_insert(s, head)
        } else {
            s
        };
        lemma_sorted_insert_props(s, head);
        lemma_insert_valid_props(s2, rest);
        assert forall|n: Seq<char>|
            #[trigger] insert_valid(s, names).contains(n) <==> s.contains(n) || (names.contains(n)
                && valid_font_name(n)) by {
            if rest.contains(n) {
                let k = choose|k: int| 0 <= k < rest.len() && rest[k] == n;
                assert(names[k + 1] == n);
                assert(names.contains(n));
            }
            if names.contains(n) && n != head {
                let k = choose|k: int| 0 <= k < names.len() && names[k] == n;
                assert(rest[k - 1] == n);
                assert(rest.contains(n));
            }
            assert(names.contains(head)) by { assert(names[0] == head) };
        }
    }
}

pub proof fn lemma_insert_all_props(s: Seq<Seq<char>>, names: Seq<Seq<char>>)
    requires
        strictly_sorted(s),
    ensures
        strictly_sorted(insert_all(s, names)),
        forall|n: Seq<char>|
            #[trigger] insert_all(s, names).contains(n) <==> s.contains(n) || names.contains(n),
    decreases names.len(),
{
    if names.len() > 0 {
        let head = names[0];
        let rest = names.drop_first();
        lemma_sorted_insert_props(s, head);
        lemma_insert_all_props(sorted_insert(s, head), rest);
        assert forall|n: Seq<char>|
            #[trigger] insert_all(s, names).contains(n) <==> s.contains(n) || names.contains(
                n,
            ) by {
            if rest.contains(n) {
                let k = choose|k: int| 0 <= k < rest.len() && rest[k] == n;
                assert(names[k + 1] == n);
                assert(names.contains(n));
            }
            if names.contains(n) && n != head {
                let k = choose|k: int| 0 <= k < names.len() && names[k] == n;
                assert(rest[k - 1] == n);
                assert(rest.contains(n));
            }
            assert(names.contains(head)) by { assert(names[0] == head) };
        }
    }
}

/// Folding one more name is one more insertion.
pub proof fn lemma_insert_valid_push(s: Seq<Seq<char>>, names: Seq<Seq<char>>, x: Seq<char>)
    ensures
        insert_valid(s, names.push(x)) == if valid_font_name(x) {
            sorted_insert(insert_valid(s, names), x)
        } else {
            insert_valid(s, names)
        },
    decreases names.len(),
{
    if names.len() == 0 {
        assert(names.push(x)[0] == x);
        assert(names.push(x).drop_first() =~= Seq::<Seq<char>>::empty());
        assert(insert_valid(sorted_insert(s, x), Seq::<Seq<char>>::empty()) == sorted_insert(
            s,
            x,
        ));
        assert(insert_valid(s, Seq::<Seq<char>>::empty()) == s);
    } else {
        assert(names.push(x)[0] == names[0]);
        assert(names.push(x).drop_first() =~= names.drop_first().push(x));
        if valid_font_name(names[0]) {
            lemma_insert_valid_push(sorted_insert(s, names[0]), names.drop_first(), x);
        } else {
            lemma_insert_valid_push(s, names.drop_first(), x);
        }
    }
}

pub proof fn lemma_insert_all_push(s: Seq<Seq<char>>, names: Seq<Seq<char>>, x: Seq<char>)
    ensures
        insert_all(s, names.push(x)) == sorted_insert(insert_all(s, names), x),
    decreases names.len(),
{
    if names.len() == 0 {
        assert(names.push(x)[0] == x);
        assert(names.push(x).drop_first() =~= Seq::<Seq<char>>::empty());
        assert(insert_all(sorted_insert(s, x), Seq::<Seq<char>>::empty()) == sorted_insert(s, x));
    } else {
        assert(names.push(x)[0] == names[0]);
        assert(names.push(x).drop_first() =~= names.drop_first().push(x));
        lemma_insert_all_push(sorted_insert(s, names[0]), names.drop_first(), x);
    }
}

/// Where the scan of the insertion routine stops determines the insertion:
/// before the first entry not less than the name, or nowhere when that entry
/// is the name itself.
proof fn lemma_sorted_insert_split(s: Seq<Seq<char>>, x: Seq<char>, p: int)
    requires
        0 <= p <= s.len(),
        forall|j: int| 0 <= j < p ==> lex_lt(#[trigger] s[j], x),
        p < s.len() ==> !lex_lt(s[p], x),
    ensures
        p < s.len() && s[p] == x ==> sorted_insert(s, x) == s,
        !(p < s.len() && s[p] == x) ==> sorted_insert(s, x) == s.take(p) + seq![x] + s.skip(p),
    decreases p,
{
    if p == 0 {
        if s.len() == 0 {
            assert(s.take(0) + seq![x] + s.skip(0) =~= seq![x]);
        } else if s[0] == x {
        } else {
            crate::order::lemma_lex_lt_connected(x, s[0]);
            assert(lex_lt(x, s[0]));
            assert(s.take(0) + seq![x] + s.skip(0) =~= seq![x] + s);
        }
    } else {
        assert(lex_lt(s[0], x));
        crate::order::lemma_lex_lt_asymmetric(s[0], x);
        crate::order::lemma_lex_lt_irreflexive(s[0]);
        assert(x != s[0]);
        let s2 = s.drop_first();
        assert forall|j: int| 0 <= j < p - 1 implies lex_lt(#[trigger] s2[j], x) by {
            assert(s2[j] == s[j + 1]);
        }
        if p - 1 < s2.len() {
            assert(s2[p - 1] == s[p]);
        }
        lemma_sorted_insert_split(s2, x, p - 1);
        if p < s.len() && s[p] == x {
            assert(sorted_insert(s2, x) == s2);
            assert(seq![s[0]] + s2 =~= s);
        } else {
            assert(seq![s[0]] + (s2.take(p - 1) + seq![x] + s2.skip(p - 1)) =~= s.take(p)
                + seq![x] + s.skip(p));
        }
    }
}

/// A chain of adjacent comparisons orders every pair.
proof fn lemma_chain_lt(s: Seq<Seq<char>>, i: int, j: int)
    requires
        forall|k: int| 0 <= k < s.len() - 1 ==> lex_lt(#[trigger] s[k], s[k + 1]),
        0 <= i < j < s.len(),
    ensures
        lex_lt(s[i], s[j]),
    decreases j - i,
{
    if j == i + 1 {
        assert(lex_lt(s[i], s[i + 1]));
    } else {
        lemma_chain_lt(s, i, j - 1);
        assert(lex_lt(s[j - 1], s[j]));
        crate::order::lemma_lex_lt_transitive(s[i], s[j - 1], s[j]);
    }
}

/// Every fallback family name passes the name filter.
pub proof fn lemma_fallback_names_valid()
    ensures
        forall|i: int|
            0 <= i < fallback_seq().len() ==> valid_font_name(#[trigger] fallback_seq()[i]),
{
    reveal_strlit("Arial");
    reveal_strlit("Times New Roman");
    reveal_strlit("Helvetica");
    reveal_strlit("Courier New");
    reveal_strlit("Georgia");
    reveal_strlit("Verdana");
    reveal_strlit("Inter");
    assert(valid_font_name("Arial"@));
    assert(valid_font_name("Times New Roman"@));
    assert(valid_font_name("Helvetica"@));
    assert(valid_font_name("Courier New"@));
    assert(valid_font_name("Georgia"@));
    assert(valid_font_name("Verdana"@));
    assert(valid_font_name("Inter"@));
    assert forall|i: int|
        0 <= i < fallback_seq().len() implies valid_font_name(#[trigger] fallback_seq()[i]) by {
        if i == 0 {
            assert(fallback_seq()[0] == "Arial"@);
        } else if i == 1 {
            assert(fallback_seq()[1] == "Times New Roman"@);
        } else if i == 2 {
            assert(fallback_seq()[2] == "Helvetica"@);
        } else if i == 3 {
            assert(fallback_seq()[3] == "Courier New"@);
        } else if i == 4 {
            assert(fallback_seq()[4] == "Georgia"@);
        } else if i == 5 {
            assert(fallback_seq()[5] == "Verdana"@);
        } else {
            assert(fallback_seq()[6] == "Inter"@);
        }
    }
}

/// The sorted fallback list is sorted, and holds the same names as the
/// fallback list.
pub proof fn lemma_sorted_fallback_props()
    ensures
        strictly_sorted(sorted_fallback()),
        forall|n: Seq<char>|
            #[trigger] sorted_fallback().contains(n) <==> fallback_seq().contains(n),
{
    reveal_strlit("Arial");
    reveal_strlit("Times New Roman");
    reveal_strlit("Helvetica");
    reveal_strlit("Courier New");
    reveal_strlit("Georgia");
    reveal_strlit("Verdana");
    reveal_strlit("Inter");
    let s = sorted_fallback();
    assert(lex_lt(s[0], s[1]));
    assert(lex_lt(s[1], s[2]));
    assert(lex_lt(s[2], s[3]));
    assert(lex_lt(s[3], s[4]));
    assert(lex_lt(s[4], s[5]));
    assert(lex_lt(s[5], s[6]));
    assert forall|k: int| 0 <= k < s.len() - 1 implies lex_lt(#[trigger] s[k], s[k + 1]) by {
        if k == 0 {
        } else if k == 1 {
        } else if k == 2 {
        } else if k == 3 {
        } else if k == 4 {
        } else {
            assert(k == 5);
        }
    }
    assert forall|i: int, j: int| 0 <= i < j < s.len() implies lex_lt(s[i], s[j]) by {
        lemma_chain_lt(s, i, j);
    }
    assert forall|n: Seq<char>|
        #[trigger] sorted_fallback().contains(n) <==> fallback_seq().contains(n) by {
        let f = fallback_seq();
        if s.contains(n) {
            let k = choose|k: int| 0 <= k < s.len() && s[k] == n;
            if k == 0 {
                assert(f[0] == n);
            } else if k == 1 {
                assert(f[3] == n);
            } else if k == 2 {
                assert(f[4] == n);
            } else if k == 3 {
                assert(f[2] == n);
            } else if k == 4 {
                assert(f[6] == n);
            } else if k == 5 {
                assert(f[1] == n);
            } else {
                assert(f[5] == n);
            }
            assert(f.contains(n));
        }
        if f.contains(n) {
            let k = choose|k: int| 0 <= k < f.len() && f[k] == n;
            if k == 0 {
                assert(s[0] == n);
            } else if k == 1 {
                assert(s[5] == n);
            } else if k == 2 {
                assert(s[3] == n);
            } else if k == 3 {
                assert(s[1] == n);
            } else if k == 4 {
                assert(s[2] == n);
            } else if k == 5 {
                assert(s[6] == n);
            } else {
                assert(s[4] == n);
            }
            assert(s.contains(n));
        }
    }
}

/// The catalog for a host report: what the host usably reported, filtered,
/// deduplicated, united with the fallback families, in sorted order.
pub open spec fn spec_catalog(host: Option<Seq<Seq<char>>>) -> Seq<Seq<char>> {
    match host {
        Option::None => insert_all(Seq::empty(), fallback_seq()),
        Option::Some(report) => insert_all(insert_valid(Seq::empty(), report), fallback_seq()),
    }
}

/// The catalog is sorted, holds exactly the catalog members, only valid or
/// fallback names, and is never empty.
pub proof fn lemma_spec_catalog_props(host: Option<Seq<Seq<char>>>)
    ensures
        strictly_sorted(spec_catalog(host)),
        forall|n: Seq<char>| #[trigger] spec_catalog(host).contains(n) <==> catalog_member(host, n),
        spec_catalog(host).len() > 0,
        forall|i: int|
            0 <= i < spec_catalog(host).len() ==> valid_font_name(#[trigger] spec_catalog(host)[i]),
{
    let base: Seq<Seq<char>> = match host {
        Option::None => Seq::empty(),
        Option::Some(report) => insert_valid(Seq::empty(), report),
    };
    let cat = spec_catalog(host);
    match host {
        Option::Some(report) => lemma_insert_valid_props(Seq::empty(), report),
        Option::None => (),
    }
    lemma_insert_all_props(base, fallback_seq());
    lemma_fallback_names_valid();
    assert(fallback_seq()[0] == "Arial"@);
    assert(fallback_seq().contains("Arial"@));
    assert(cat.contains("Arial"@));
    assert(cat.len() > 0);
    assert forall|i: int| 0 <= i < cat.len() implies valid_font_name(#[trigger] cat[i]) by {
        assert(cat.contains(cat[i]));
        if fallback_seq().contains(cat[i]) {
            let k = choose|k: int| 0 <= k < fallback_seq().len() && fallback_seq()[k] == cat[i];
        }
    }
}

/// When the host reports nothing usable, the catalog is exactly the fallback
/// list in sorted order.
pub proof fn lemma_catalog_fallback_only(host: Option<Seq<Seq<char>>>)
    requires
        host matches Some(report) ==> forall|i: int|
            0 <= i < report.len() ==> !valid_font_name(#[trigger] report[i]),
    ensures
        spec_catalog(host) == sorted_fallback(),
{
    lemma_spec_catalog_props(host);
    lemma_sorted_fallback_props();
    assert forall|n: Seq<char>|
        spec_catalog(host).contains(n) <==> sorted_fallback().contains(n) by {
        match host {
            Option::Some(report) => {
                if report.contains(n) && valid_font_name(n) {
                    let k = choose|k: int| 0 <= k < report.len() && report[k] == n;
                }
            },
            Option::None => (),
        }
    }
    crate::order::lemma_strictly_sorted_unique(spec_catalog(host), sorted_fallback());
}

/// When a query must run the loader: the cache was never filled, or a filled
/// cache was somehow left empty, which one reload heals.
pub open spec fn needs_load(fonts: Seq<Seq<char>>, loaded: bool) -> bool {
    !loaded || fonts.len() == 0
}

/// One query against the cache: the catalog handed to the caller and the cache
/// state left behind, given what the host would report if asked.
pub open spec fn query_step(
    fonts: Seq<Seq<char>>,
    loaded: bool,
    host: Option<Seq<Seq<char>>>,
) -> (Seq<Seq<char>>, bool) {
    if needs_load(fonts, loaded) {
        (spec_catalog(host), true)
    } else {
        (fonts, loaded)
    }
}

/// The catalogs a run of queries hands out, one per caller.
pub open spec fn query_outputs(
    fonts: Seq<Seq<char>>,
    loaded: bool,
    hosts: Seq<Option<Seq<Seq<char>>>>,
) -> Seq<Seq<Seq<char>>>
    decreases hosts.len(),
{
    if hosts.len() == 0 {
        Seq::empty()
    } else {
        let s1 = query_step(fonts, loaded, hosts[0]);
        seq![s1.0] + query_outputs(s1.0, s1.1, hosts.drop_first())
    }
}

/// Querying is idempotent: one query leaves the cache in a state where any
/// later query needs no load, changes nothing, and hands out the same catalog,
/// whatever the host would have reported the second time.
pub proof fn lemma_query_idempotent(
    fonts: Seq<Seq<char>>,
    loaded: bool,
    h1: Option<Seq<Seq<char>>>,
    h2: Option<Seq<Seq<char>>>,
)
    ensures
        !needs_load(query_step(fonts, loaded, h1).0, query_step(fonts, loaded, h1).1),
        query_step(query_step(fonts, loaded, h1).0, query_step(fonts, loaded, h1).1, h2)
            == query_step(fonts, loaded, h1),
{
    lemma_spec_catalog_props(h1);
}

/// Any number of queries loads at most once: every caller receives the very
/// catalog the first query produced, and no query after the first changes the
/// cache.
pub proof fn lemma_loader_runs_once(
    fonts: Seq<Seq<char>>,
    loaded: bool,
    hosts: Seq<Option<Seq<Seq<char>>>>,
)
    requires
        hosts.len() >= 1,
    ensures
        query_outputs(fonts, loaded, hosts).len() == hosts.len(),
        forall|i: int|
            0 <= i < hosts.len() ==> query_outputs(fonts, loaded, hosts)[i] == query_step(
                fonts,
                loaded,
                hosts[0],
            ).0,
    decreases hosts.len(),
{
    let s1 = query_step(fonts, loaded, hosts[0]);
    let rest = hosts.drop_first();
    let outs = query_outputs(fonts, loaded, hosts);
    if hosts.len() == 1 {
        assert(rest =~= Seq::<Option<Seq<Seq<char>>>>::empty());
        assert(query_outputs(s1.0, s1.1, Seq::<Option<Seq<Seq<char>>>>::empty())
            == Seq::<Seq<Seq<char>>>::empty());
        assert(outs =~= seq![s1.0]);
    } else {
        lemma_loader_runs_once(s1.0, s1.1, rest);
        lemma_query_idempotent(fonts, loaded, hosts[0], rest[0]);
        let touts = query_outputs(s1.0, s1.1, rest);
        assert(outs == seq![s1.0] + touts);
        assert forall|i: int| 0 <= i < hosts.len() implies outs[i] == s1.0 by {
            if i > 0 {
                assert(outs[i] == touts[i - 1]);
                assert(touts[i - 1] == query_step(s1.0, s1.1, rest[0]).0);
            }
        }
    }
}

/// The fixed fallback list, in the order the loader seeds it.
pub fn fallback_fonts() -> (r: Vec<String>)
    ensures
        r.deep_view() == fallback_seq(),
{
    let mut v: Vec<String> = Vec::new();
    v.push("Arial".to_owned());
    v.push("Times New Roman".to_owned());
    v.push("Helvetica".to_owned());
    v.push("Courier New".to_owned());
    v.push("Georgia".to_owned());
    v.push("Verdana".to_owned());
    v.push("Inter".to_owned());
    proof {
        assert(v.deep_view() =~= fallback_seq());
    }
    v
}

/// Inserts one name at its place in a sorted catalog, or drops it when it is
/// already there.
fn insert_sorted(v: &mut Vec<String>, name: String)
    ensures
        final (v).deep_view() == sorted_insert(old(v).deep_view(), name@),
{
    let mut i: usize = 0;
    while i < v.len() && str_lt(v[i].as_str(), name.as_str())
        invariant
            i <= v.len(),
            *v == *old(v),
            forall|j: int| 0 <= j < i ==> lex_lt(#[trigger] v.deep_view()[j], name@),
        decreases v.len() - i,
    {
        i += 1;
    }
    let ghost s = old(v).deep_view();
    let ghost p = i as int;
    if i < v.len() && v[i] == name {
        proof {
            assert(s[p] == name@);
            lemma_sorted_insert_split(s, name@, p);
        }
    } else {
        v.insert(i, name);
        proof {
            lemma_sorted_insert_split(s, name@, p);
            assert(v.deep_view() =~= s.take(p) + seq![name@] + s.skip(p));
        }
    }
}

/// Builds the catalog from what the host font enumeration reported, `None`
/// when enumeration itself failed: valid names are kept, sorted and
/// deduplicated, and the fallback families are always united in.
pub fn initialize_fonts(host: Option<Vec<String>>) -> (r: Vec<String>)
    ensures
        r.deep_view() == spec_catalog(host.deep_view()),
        strictly_sorted(r.deep_view()),
        forall|i: int|
            0 <= i < fallback_seq().len() ==> r.deep_view().contains(#[trigger] fallback_seq()[i]),
        forall|i: int|
            0 <= i < r.deep_view().len() ==> valid_font_name(#[trigger] r.deep_view()[i]),
        r@.len() > 0,
{
    let ghost hostv = host.deep_view();
    let mut result: Vec<String> = Vec::new();
    proof {
        assert(result.deep_view() =~= Seq::<Seq<char>>::empty());
    }
    match &host {
        Option::Some(names) => {
            let mut i: usize = 0;
            proof {
                assert(names.deep_view().take(0) =~= Seq::<Seq<char>>::empty());
                assert(insert_valid(Seq::empty(), Seq::<Seq<char>>::empty()) == Seq::<
                    Seq<char>,
                >::empty());
            }
            while i < names.len()
                invariant
                    i <= names.len(),
                    result.deep_view() == insert_valid(
                        Seq::empty(),
                        names.deep_view().take(i as int),
                    ),
                decreases names.len() - i,
            {
                let name = &names[i];
                proof {
                    lemma_insert_valid_push(
                        Seq::empty(),
                        names.deep_view().take(i as int),
                        names.deep_view()[i as int],
                    );
                    assert(names.deep_view().take(i as int).push(names.deep_view()[i as int])
                        =~= names.deep_view().take(i as int + 1));
                    assert(name@ == names.deep_view()[i as int]);
                }
                if is_valid_font_name(name.as_str()) {
                    insert_sorted(&mut result, name.clone());
                }
                i += 1;
            }
            proof {
                assert(names.deep_view().take(names@.len() as int) =~= names.deep_view());
                assert(hostv == Option::Some(names.deep_view()));
            }
        },
        Option::None => {},
    }
    let ghost base = result.deep_view();
    proof {
        match hostv {
            Option::None => {
                assert(base =~= Seq::<Seq<char>>::empty());
            },
            Option::Some(report) => {
                assert(base == insert_valid(Seq::empty(), report));
            },
        }
    }
    let fb = fallback_fonts();
    let mut j: usize = 0;
    proof {
        assert(fallback_seq().take(0) =~= Seq::<Seq<char>>::empty());
        assert(insert_all(base, Seq::<Seq<char>>::empty()) == base);
    }
    while j < fb.len()
        invariant
            j <= fb.len(),
            fb.deep_view() == fallback_seq(),
            result.deep_view() == insert_all(base, fallback_seq().take(j as int)),
        decreases fb.len() - j,
    {
        proof {
            lemma_insert_all_push(base, fallback_seq().take(j as int), fallback_seq()[j as int]);
            assert(fallback_seq().take(j as int).push(fallback_seq()[j as int])
                =~= fallback_seq().take(j as int + 1));
            assert(fb[j as int]@ == fallback_seq()[j as int]);
        }
        let name = fb[j].clone();
        insert_sorted(&mut result, name);
        j += 1;
    }
    proof {
        assert(fallback_seq().take(fallback_seq().len() as int) =~= fallback_seq());
        assert(result.deep_view() == spec_catalog(hostv));
        lemma_spec_catalog_props(hostv);
        assert forall|i: int|
            0 <= i < fallback_seq().len() implies result.deep_view().contains(
            #[trigger] fallback_seq()[i],
        ) by {
            assert(fallback_seq().contains(fallback_seq()[i]));
        }
        assert(result.deep_view().len() == result@.len());
    }
    result
}

/// What a filled cache may hold: a loader catalog — sorted, every name valid,
/// every fallback family present.
pub open spec fn wf_catalog(fonts: Seq<Seq<char>>) -> bool {
    &&& strictly_sorted(fonts)
    &&& forall|i: int| 0 <= i < fonts.len() ==> valid_font_name(#[trigger] fonts[i])
    &&& forall|i: int|
        0 <= i < fallback_seq().len() ==> fonts.contains(#[trigger] fallback_seq()[i])
}

/// The cache the UI queries: the catalog, and whether it was populated.
pub struct FontState {
    pub fonts: Vec<String>,
    pub loaded: bool,
}

impl FontState {
    /// A cache is well formed when whatever it stores came from the loader.
    pub open spec fn wf(&self) -> bool {
        self.loaded ==> wf_catalog(self.fonts.deep_view())
    }
}

/// The state the cache starts in: no catalog, nothing loaded.
pub fn initialize_empty_state() -> (r: (Vec<String>, bool))
    ensures
        r.0@.len() == 0,
        r.1 == false,
{
    (Vec::new(), false)
}

/// Whether a query can be answered from the cache without running the loader.
pub fn fonts_loaded(state: &FontState) -> (r: bool)
    ensures
        r == !needs_load(state.fonts.deep_view(), state.loaded),
{
    proof {
        assert(state.fonts.deep_view().len() == state.fonts@.len());
    }
    state.loaded && state.fonts.len() > 0
}

fn clone_names(v: &Vec<String>) -> (r: Vec<String>)
    ensures
        r.deep_view() == v.deep_view(),
{
    let mut r: Vec<String> = Vec::new();
    proof {
        assert(r.deep_view() =~= Seq::<Seq<char>>::empty());
        assert(v.deep_view().take(0) =~= Seq::<Seq<char>>::empty());
    }
    let mut i: usize = 0;
    while i < v.len()
        invariant
            i <= v@.len(),
            r.deep_view() == v.deep_view().take(i as int),
        decreases v@.len() - i,
    {
        let ghost before = r.deep_view();
        let ghost before_view = r@;
        let c = v[i].clone();
        r.push(c);
        proof {
            assert(before == v.deep_view().take(i as int));
            assert(before.len() == i as int);
            assert(before_view.len() == i as int);
            assert(r@.len() == i as int + 1);
            assert forall|k: int|
                0 <= k < r.deep_view().len() implies r.deep_view()[k] == v.deep_view().take(
                i as int + 1,
            )[k] by {
                assert(r.deep_view()[k] == r@[k]@);
                if k < i as int {
                    assert(r@[k] == before_view[k]);
                    assert(before[k] == before_view[k]@);
                    assert(before[k] == v.deep_view().take(i as int)[k]);
                    assert(v.deep_view().take(i as int)[k] == v.deep_view()[k]);
                    assert(v.deep_view().take(i as int + 1)[k] == v.deep_view()[k]);
                } else {
                    assert(k == i as int);
                    assert(r@[k]@ == v@[i as int]@);
                    assert(v.deep_view().take(i as int + 1)[k] == v.deep_view()[k]);
                    assert(v.deep_view()[k] == v@[k]@);
                }
            }
            assert(r.deep_view() =~= v.deep_view().take(i as int + 1));
        }
        i += 1;
    }
    proof {
        assert(v.deep_view().take(v@.len() as int) =~= v.deep_view());
    }
    r
}

/// Answers one UI query: on the first call, or after an empty catalog was
/// somehow cached, the loader runs on the host report and its result is
/// cached; afterwards the cached catalog is returned as it is, and the host
/// report is not consulted.
pub fn get_system_fonts(state: &mut FontState, host: Option<Vec<String>>) -> (r: Vec<String>)
    ensures
        (final (state).fonts.deep_view(), final (state).loaded) == query_step(
            old(state).fonts.deep_view(),
            old(state).loaded,
            host.deep_view(),
        ),
        r.deep_view() == final (state).fonts.deep_view(),
        !needs_load(final (state).fonts.deep_view(), final (state).loaded),
        old(state).wf() ==> final (state).wf() && wf_catalog(r.deep_view()),
{
    let ghost hostv = host.deep_view();
    if !fonts_loaded(state) {
        let loaded_fonts = initialize_fonts(host);
        state.fonts = loaded_fonts;
        state.loaded = true;
        proof {
            lemma_spec_catalog_props(hostv);
        }
    }
    clone_names(&state.fonts)
}

} // verus!

