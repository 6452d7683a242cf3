//! The order of strings, character by character, as `String`'s `Ord` has it
//! (comparing UTF-8 bytes orders strings as comparing their characters
//! does), and sorting and de-duplicating lists of ids by it.

use vstd::prelude::*;
use vstd::seq_lib::group_to_multiset_ensures;

verus! {

/// `a` comes before `b` or equals it.
pub open spec fn lex_le(a: Seq<char>, b: Seq<char>) -> bool
    decreases a.len(),
{
    if a.len() == 0 {
        true
    } else if b.len() == 0 {
        false
    } else if a[0] != b[0] {
        a[0] < b[0]
    } else {
        lex_le(a.drop_first(), b.drop_first())
    }
}

/// Every string comes at or before itself.
pub proof fn lemma_lex_reflexive(a: Seq<char>)
    ensures
        lex_le(a, a),
    decreases a.len(),
{
    if a.len() > 0 {
        lemma_lex_reflexive(a.drop_first());
    }
}

/// Of two strings, one comes at or before the other.
pub proof fn lemma_lex_total(a: Seq<char>, b: Seq<char>)
    ensures
        lex_le(a, b) || lex_le(b, a),
    decreases a.len(),
{
    if a.len() > 0 && b.len() > 0 && a[0] == b[0] {
        lemma_lex_total(a.drop_first(), b.drop_first());
    }
}

/// Two strings that each come at or before the other are equal.
pub proof fn lemma_lex_antisymmetric(a: Seq<char>, b: Seq<char>)
    requires
        lex_le(a, b),
        lex_le(b, a),
    ensures
        a == b,
    decreases a.len(),
{
    if a.len() > 0 && b.len() > 0 {
        lemma_lex_antisymmetric(a.drop_first(), b.drop_first());
        assert(a =~= seq![a[0]] + a.drop_first());
        assert(b =~= seq![b[0]] + b.drop_first());
    } else {
        assert(a.len() == 0 && b.len() == 0);
        assert(a =~= b);
    }
}

/// String order is transitive.
pub proof fn lemma_lex_transitive(a: Seq<char>, b: Seq<char>, c: Seq<char>)
    requires
        lex_le(a, b),
        lex_le(b, c),
    ensures
        lex_le(a, c),
    decreases a.len(),
{
    if a.len() > 0 && b.len() > 0 && c.len() > 0 && a[0] == b[0] && b[0] == c[0] {
        lemma_lex_transitive(a.drop_first(), b.drop_first(), c.drop_first());
    }
}

/// Whether `a` comes before `b` or equals it.
pub fn str_le(a: &str, b: &str) -> (r: bool)
    ensures
        r == lex_le(a@, b@),
{
    let n = a.unicode_len();
    let m = b.unicode_len();
    let mut i: usize = 0;
    assert(a@.subrange(0, n as int) =~= a@);
    assert(b@.subrange(0, m as int) =~= b@);
    while i < n && i < m && a.get_char(i) == b.get_char(i)
        invariant
            n == a@.len(),
            m == b@.len(),
            i <= n,
            i <= m,
            lex_le(a@, b@) == lex_le(a@.subrange(i as int, n as int), b@.subrange(i as int, m as int)),
        decreases n - i,
    {
        let ghost sa = a@.subrange(i as int, n as int);
        let ghost sb = b@.subrange(i as int, m as int);
        assert(sa.drop_first() =~= a@.subrange(i + 1, n as int));
        assert(sb.drop_first() =~= b@.subrange(i + 1, m as int));
        assert(sa[0] == a@[i as int]);
        assert(sb[0] == b@[i as int]);
        i = i + 1;
    }
    let ghost sa = a@.subrange(i as int, n as int);
    let ghost sb = b@.subrange(i as int, m as int);
    if i == n {
        true
    } else if i == m {
        false
    } else {
        assert(sa[0] == a@[i as int]);
        assert(sb[0] == b@[i as int]);
        a.get_char(i) < b.get_char(i)
    }
}

/// The order of strings, as a relation.
pub open spec fn lex_leq() -> spec_fn(Seq<char>, Seq<char>) -> bool {
    |a: Seq<char>, b: Seq<char>| lex_le(a, b)
}

/// The order of strings is a total order.
pub proof fn lemma_lex_total_ordering()
    ensures
        vstd::relations::total_ordering(lex_leq()),
{
    assert forall|a: Seq<char>| #[trigger] lex_leq()(a, a) by {
        lemma_lex_reflexive(a);
    }
    assert forall|a: Seq<char>, b: Seq<char>| #[trigger] lex_leq()(a, b) && #[trigger] lex_leq()(b, a) implies a == b by {
        lemma_lex_antisymmetric(a, b);
    }
    assert forall|a: Seq<char>, b: Seq<char>, c: Seq<char>|
        #[trigger] lex_leq()(a, b) && #[trigger] lex_leq()(b, c) implies lex_leq()(a, c) by {
        lemma_lex_transitive(a, b, c);
    }
    assert forall|a: Seq<char>, b: Seq<char>| #[trigger] lex_leq()(a, b) || #[trigger] lex_leq()(b, a) by {
        lemma_lex_total(a, b);
    }
}

/// `s` in string order.
pub open spec fn sorted_version(s: Seq<Seq<char>>) -> Seq<Seq<char>> {
    s.sort_by(lex_leq())
}

/// Every string of `s` comes before or equals every later one.
pub open spec fn sorted(s: Seq<Seq<char>>) -> bool {
    forall|i: int, j: int| 0 <= i < j < s.len() ==> lex_le(#[trigger] s[i], #[trigger] s[j])
}

pub open spec fn strings_view(v: Seq<String>) -> Seq<Seq<char>> {
    v.map_values(|s: String| s@)
}

/// Sorts `v` in string order.
pub fn sort_strings(v: &mut Vec<String>)
    ensures
        sorted(strings_view(final(v)@)),
        strings_view(final(v)@).to_multiset() == strings_view(old(v)@).to_multiset(),
        strings_view(final(v)@) == sorted_version(strings_view(old(v)@)),
{
    broadcast use group_to_multiset_ensures;

    let n = v.len();
    let mut i: usize = 1;
    if n == 0 {
        proof {
            lemma_sorted_is_sort(strings_view(v@), strings_view(v@));
        }
        return;
    }
    while i < n
        invariant
            n == v@.len(),
            1 <= i <= n,
            sorted(strings_view(v@).subrange(0, i as int)),
            strings_view(v@).to_multiset() == strings_view(old(v)@).to_multiset(),
        decreases n - i,
    {
        let mut j: usize = i;
        proof {
            let s = strings_view(v@);
            assert forall|a: int, b: int| 0 <= a < b <= i && a != j && b != j implies lex_le(
                #[trigger] s[a],
                #[trigger] s[b],
            ) by {
                assert(s.subrange(0, i as int)[a] == s[a]);
                assert(s.subrange(0, i as int)[b] == s[b]);
            }
        }
        while j > 0 && !str_le(v[j - 1].as_str(), v[j].as_str())
            invariant
                n == v@.len(),
                1 <= i < n,
                j <= i,
                strings_view(v@).to_multiset() == strings_view(old(v)@).to_multiset(),
                forall|a: int, b: int|
                    0 <= a < b <= i && a != j && b != j ==> lex_le(
                        #[trigger] strings_view(v@)[a],
                        #[trigger] strings_view(v@)[b],
                    ),
                forall|b: int| j < b <= i ==> lex_le(strings_view(v@)[j as int], #[trigger] strings_view(v@)[b]),
            decreases j,
        {
            let ghost before = strings_view(v@);
            let tmp = v[j - 1].clone();
            let cur = v[j].clone();
            v.set(j - 1, cur);
            v.set(j, tmp);
            proof {
                let after = strings_view(v@);
                assert(after =~= before.update(j - 1, before[j as int]).update(j as int, before[j - 1]));
                lemma_lex_total(before[j - 1], before[j as int]);
                assert(lex_le(before[j as int], before[j - 1]));
                let jj = j - 1;
                assert forall|a: int, b: int| 0 <= a < b <= i && a != jj && b != jj implies lex_le(
                    #[trigger] after[a],
                    #[trigger] after[b],
                ) by {
                    if b == j {
                        assert(after[b] == before[jj]);
                        assert(after[a] == before[a]);
                    } else if a == j {
                        assert(after[a] == before[jj]);
                        assert(after[b] == before[b]);
                    } else {
                        assert(after[a] == before[a]);
                        assert(after[b] == before[b]);
                    }
                }
                assert forall|b: int| jj < b <= i implies lex_le(after[jj], #[trigger] after[b]) by {
                    assert(after[jj] == before[j as int]);
                    if b == j {
                        assert(after[b] == before[jj]);
                    } else {
                        assert(after[b] == before[b]);
                    }
                }
                lemma_swap_multiset(before, j - 1, j as int);
            }
            j = j - 1;
        }
        proof {
            let s = strings_view(v@);
            assert forall|a: int, b: int| 0 <= a < b < i + 1 implies lex_le(
                #[trigger] s.subrange(0, i + 1)[a],
                #[trigger] s.subrange(0, i + 1)[b],
            ) by {
                assert(s.subrange(0, i + 1)[a] == s[a]);
                assert(s.subrange(0, i + 1)[b] == s[b]);
                if b == j {
                    if a < j - 1 {
                        lemma_lex_transitive(s[a], s[j - 1], s[b]);
                    }
                } else if a == j {
                } else {
                }
            }
        }
        i = i + 1;
    }
    assert(strings_view(v@).subrange(0, n as int) =~= strings_view(v@));
    proof {
        lemma_sorted_is_sort(strings_view(v@), strings_view(old(v)@));
    }
}

/// A sorted list with the same members as `s` is `s` in string order.
pub proof fn lemma_sorted_is_sort(t: Seq<Seq<char>>, s: Seq<Seq<char>>)
    requires
        sorted(t),
        t.to_multiset() == s.to_multiset(),
    ensures
        t == sorted_version(s),
{
    lemma_lex_total_ordering();
    s.lemma_sort_by_ensures(lex_leq());
    assert(vstd::relations::sorted_by(t, lex_leq())) by {
        assert forall|i: int, j: int| 0 <= i < j < t.len() implies #[trigger] lex_leq()(t[i], t[j]) by {
            assert(lex_le(t[i], t[j]));
        }
    }
    vstd::seq_lib::lemma_sorted_unique(t, s.sort_by(lex_leq()), lex_leq());
}

/// `s` without the repeats of an element right after itself, as
/// `Vec::dedup` leaves it.
pub open spec fn dedup_spec(s: Seq<Seq<char>>) -> Seq<Seq<char>>
    decreases s.len(),
{
    if s.len() <= 1 {
        s
    } else {
        let rest = dedup_spec(s.drop_last());
        if s.last() == s[s.len() - 2] {
            rest
        } else {
            rest.push(s.last())
        }
    }
}

/// `s` in string order is sorted and has the members of `s`.
pub proof fn lemma_sorted_version(s: Seq<Seq<char>>)
    ensures
        sorted(sorted_version(s)),
        sorted_version(s).to_set() == s.to_set(),
{
    broadcast use group_to_multiset_ensures;

    lemma_lex_total_ordering();
    s.lemma_sort_by_ensures(lex_leq());
    let t = sorted_version(s);
    assert forall|i: int, j: int| 0 <= i < j < t.len() implies lex_le(#[trigger] t[i], #[trigger] t[j]) by {
        assert(lex_leq()(t[i], t[j]));
    }
    assert forall|x: Seq<char>| t.to_set().contains(x) <==> s.to_set().contains(x) by {
        assert(t.contains(x) <==> t.to_multiset().count(x) > 0);
        assert(s.contains(x) <==> s.to_multiset().count(x) > 0);
    }
    assert(t.to_set() =~= s.to_set());
}

/// Dropping the repeats from a sorted list leaves every member once, still
/// in order.
pub proof fn lemma_dedup_sorted(s: Seq<Seq<char>>)
    requires
        sorted(s),
    ensures
        sorted(dedup_spec(s)),
        dedup_spec(s).no_duplicates(),
        dedup_spec(s).to_set() == s.to_set(),
        forall|x: Seq<char>| #[trigger] dedup_spec(s).contains(x) ==> s.contains(x),
    decreases s.len(),
{
    broadcast use vstd::seq_lib::group_seq_properties;

    if s.len() <= 1 {
        assert(s.len() == 1 ==> s =~= seq![s[0]]);
    } else {
        let p = s.drop_last();
        let d = dedup_spec(p);
        let x = s.last();
        assert(sorted(p)) by {
            assert forall|i: int, j: int| 0 <= i < j < p.len() implies lex_le(#[trigger] p[i], #[trigger] p[j]) by {
                assert(p[i] == s[i] && p[j] == s[j]);
            }
        }
        lemma_dedup_sorted(p);
        assert(s =~= p.push(x));
        p.lemma_push_to_set_commute(x);
        if x == s[s.len() - 2] {
            assert(p.contains(x)) by {
                assert(p[p.len() - 1] == x);
            }
            assert(s.to_set() =~= p.to_set());
        } else {
            // every member of `p` comes before `x` and differs from it
            assert forall|y: Seq<char>| #[trigger] p.contains(y) implies lex_le(y, x) && y != x by {
                let i = choose|i: int| 0 <= i < p.len() && p[i] == y;
                assert(lex_le(s[i], s[s.len() - 1]));
                if y == x {
                    if i < s.len() - 2 {
                        assert(lex_le(s[i], s[s.len() - 2]));
                        assert(lex_le(s[s.len() - 2], s[s.len() - 1]));
                        lemma_lex_antisymmetric(s[s.len() - 2], x);
                    }
                }
            }
            let e = d.push(x);
            assert(dedup_spec(s) == e);
            assert(sorted(e)) by {
                assert forall|i: int, j: int| 0 <= i < j < e.len() implies lex_le(#[trigger] e[i], #[trigger] e[j]) by {
                    if j == e.len() - 1 {
                        assert(d.contains(e[i]));
                        assert(p.contains(e[i]));
                    } else {
                        assert(e[i] == d[i] && e[j] == d[j]);
                    }
                }
            }
            assert(e.no_duplicates()) by {
                assert forall|i: int, j: int| 0 <= i < j < e.len() implies e[i] != e[j] by {
                    if j == e.len() - 1 {
                        assert(d.contains(e[i]));
                        assert(p.contains(e[i]));
                    } else {
                        assert(e[i] == d[i] && e[j] == d[j]);
                    }
                }
            }
            d.lemma_push_to_set_commute(x);
            assert forall|y: Seq<char>| #[trigger] e.contains(y) implies s.contains(y) by {
                if y != x {
                    assert(d.contains(y));
                    assert(p.contains(y));
                }
            }
        }
    }
}

/// `v` without the repeats of an element right after itself.
pub fn dedup_strings(v: &Vec<String>) -> (r: Vec<String>)
    ensures
        strings_view(r@) == dedup_spec(strings_view(v@)),
{
    let ghost sv = strings_view(v@);
    let mut r: Vec<String> = Vec::new();
    let n = v.len();
    if n == 0 {
        assert(strings_view(r@) =~= sv);
        return r;
    }
    r.push(v[0].clone());
    assert(strings_view(r@) =~= sv.subrange(0, 1));
    assert(dedup_spec(sv.subrange(0, 1)) == sv.subrange(0, 1));
    let mut i: usize = 1;
    while i < n
        invariant
            sv == strings_view(v@),
            n == sv.len(),
            1 <= i <= n,
            strings_view(r@) == dedup_spec(sv.subrange(0, i as int)),
        decreases n - i,
    {
        let ghost pre = sv.subrange(0, i + 1);
        assert(pre.drop_last() =~= sv.subrange(0, i as int));
        assert(pre.last() == sv[i as int]);
        assert(pre[pre.len() - 2] == sv[i - 1]);
        let ghost before = strings_view(r@);
        if !crate::text::str_eq(v[i].as_str(), v[i - 1].as_str()) {
            r.push(v[i].clone());
            assert(strings_view(r@) =~= before.push(sv[i as int]));
        }
        i = i + 1;
    }
    assert(sv.subrange(0, n as int) =~= sv);
    r
}

proof fn lemma_swap_multiset(s: Seq<Seq<char>>, a: int, b: int)
    requires
        0 <= a < b < s.len(),
    ensures
        s.update(a, s[b]).update(b, s[a]).to_multiset() == s.to_multiset(),
{
    broadcast use group_to_multiset_ensures;
    broadcast use vstd::multiset::group_multiset_axioms;

    let t = s.update(a, s[b]);
    let u = t.update(b, s[a]);
    vstd::seq_lib::to_multiset_update(s, a, s[b]);
    vstd::seq_lib::to_multiset_update(t, b, s[a]);
    assert(t[b] == s[b]);
    assert(s.contains(s[a]));
    assert(s.to_multiset().count(s[a]) > 0);
    assert(u.to_multiset() =~= s.to_multiset());
}

} // verus!
