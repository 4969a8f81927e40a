//! What holds across calls: of the normal form of names, and of the managed
//! list under adding and removing.
use vstd::prelude::*;
use crate::process::{
    is_permutation, listed_ignoring_case, normalized, not_named, others, permutes, sort_key,
    sorted_by_key, stable_sort_of,
};
use crate::service::{action_answer, existence_answer, state_answer, ServiceAction};
use crate::text::{
    eq_ascii_case_insensitive, has_substring, is_white_space, lex_lt, trim_end, trim_start, trimmed,
};

verus! {

/// No two names of `s` are equal up to ASCII case.
pub open spec fn distinct_ignoring_case(s: Seq<Seq<char>>) -> bool {
    forall|i: int, j: int|
        0 <= i < j < s.len() ==> !eq_ascii_case_insensitive(#[trigger] s[i], #[trigger] s[j])
}

/// `trim_start(s)` is a suffix of `s` that is empty or starts with a
/// character other than white space.
proof fn lemma_trim_start_shape(s: Seq<char>)
    ensures
        trim_start(s).len() <= s.len(),
        trim_start(s) == s.skip(s.len() - trim_start(s).len()),
        trim_start(s).len() > 0 ==> !is_white_space(trim_start(s)[0]),
        forall|i: int| 0 <= i < s.len() - trim_start(s).len() ==> is_white_space(#[trigger] s[i]),
    decreases s.len(),
{
    if s.len() > 0 && is_white_space(s[0]) {
        lemma_trim_start_shape(s.drop_first());
        assert forall|i: int| 0 <= i < s.len() - trim_start(s).len() implies is_white_space(#[trigger] s[i]) by {
            if i > 0 {
                assert(s[i] == s.drop_first()[i - 1]);
            }
        }
        assert(s.drop_first().skip(s.drop_first().len() - trim_start(s).len()) =~= s.skip(
            s.len() - trim_start(s).len(),
        ));
    } else {
        assert(s.skip(0) =~= s);
    }
}

/// `trim_end(s)` is a prefix of `s` that is empty or ends with a character
/// other than white space.
proof fn lemma_trim_end_shape(s: Seq<char>)
    ensures
        trim_end(s).len() <= s.len(),
        trim_end(s) == s.take(trim_end(s).len() as int),
        trim_end(s).len() > 0 ==> !is_white_space(trim_end(s).last()),
        forall|i: int| trim_end(s).len() <= i < s.len() ==> is_white_space(#[trigger] s[i]),
    decreases s.len(),
{
    if s.len() > 0 && is_white_space(s.last()) {
        lemma_trim_end_shape(s.drop_last());
        assert forall|i: int| trim_end(s).len() <= i < s.len() implies is_white_space(#[trigger] s[i]) by {
            if i < s.len() - 1 {
                assert(s[i] == s.drop_last()[i]);
            }
        }
        assert(s.drop_last().take(trim_end(s).len() as int) =~= s.take(trim_end(s).len() as int));
    } else {
        assert(s.take(s.len() as int) =~= s);
    }
}

/// A text with no white space at either end is left as it is by trimming.
proof fn lemma_trimmed_fixed(t: Seq<char>)
    requires
        t.len() > 0 ==> !is_white_space(t[0]) && !is_white_space(t.last()),
    ensures
        trimmed(t) == t,
{
}

/// A trimmed text has no white space at either end.
proof fn lemma_trimmed_ends(s: Seq<char>)
    ensures
        trimmed(s).len() > 0 ==> !is_white_space(trimmed(s)[0]) && !is_white_space(
            trimmed(s).last(),
        ),
{
    let u = trim_start(s);
    lemma_trim_start_shape(s);
    lemma_trim_end_shape(u);
    if trimmed(s).len() > 0 {
        assert(trimmed(s)[0] == u[0]);
    }
}

/// Trimming takes off exactly the white space at the two ends: what is left
/// is a contiguous piece of the text, everything before and after it is white
/// space, and the piece is empty or starts and ends with other characters.
pub proof fn law_trim_takes_off_outer_white_space(s: Seq<char>)
    ensures
        exists|a: int|
            0 <= a && a + trimmed(s).len() <= s.len() && #[trigger] s.subrange(a, a + trimmed(s).len())
                == trimmed(s) && (forall|i: int| 0 <= i < a ==> is_white_space(#[trigger] s[i]))
                && (forall|i: int|
                a + trimmed(s).len() <= i < s.len() ==> is_white_space(#[trigger] s[i])),
        trimmed(s).len() > 0 ==> !is_white_space(trimmed(s)[0]) && !is_white_space(
            trimmed(s).last(),
        ),
{
    let u = trim_start(s);
    let t = trimmed(s);
    lemma_trim_start_shape(s);
    lemma_trim_end_shape(u);
    lemma_trimmed_ends(s);
    let a = s.len() - u.len();
    assert(s.subrange(a, a + t.len()) =~= t);
    assert forall|i: int| a + t.len() <= i < s.len() implies is_white_space(#[trigger] s[i]) by {
        assert(s[i] == u[i - a]);
    }
}

/// Trimming twice trims no more than trimming once.
pub proof fn law_trim_idempotent(s: Seq<char>)
    ensures
        trimmed(trimmed(s)) == trimmed(s),
{
    lemma_trimmed_ends(s);
    lemma_trimmed_fixed(trimmed(s));
}

/// The normal form of a name always names a unit type: it holds a `.` and
/// so is never empty.
pub proof fn law_normalized_has_unit_type(name: Seq<char>)
    ensures
        normalized(name).contains('.'),
        normalized(name).len() > 0,
{
    let t = trimmed(name);
    if !t.contains('.') {
        let r = t + ".service"@;
        reveal_strlit(".service");
        assert(r[t.len() as int] == '.');
    }
}

/// The normal form of a name is the name without the white space at its
/// ends, with `.service` appended exactly when that holds no `.`; it has no
/// white space at either end.
pub proof fn law_normalized_form(name: Seq<char>)
    ensures
        trimmed(name).contains('.') ==> normalized(name) == trimmed(name),
        !trimmed(name).contains('.') ==> normalized(name) == trimmed(name) + ".service"@,
        normalized(name).len() > 0,
        !is_white_space(normalized(name)[0]),
        !is_white_space(normalized(name).last()),
{
    let t = trimmed(name);
    lemma_trimmed_ends(name);
    law_normalized_has_unit_type(name);
    if !t.contains('.') {
        let r = t + ".service"@;
        reveal_strlit(".service");
        assert(r[0] == (if t.len() > 0 { t[0] } else { '.' }));
        assert(r.last() == 'e');
    }
}

/// Normalizing a name that is in normal form leaves it as it is.
pub proof fn law_normalize_idempotent(name: Seq<char>)
    ensures
        normalized(normalized(name)) == normalized(name),
{
    let t = trimmed(name);
    lemma_trimmed_ends(name);
    law_normalized_has_unit_type(name);
    if t.contains('.') {
        lemma_trimmed_fixed(t);
    } else {
        let r = t + ".service"@;
        reveal_strlit(".service");
        assert(r[0] == (if t.len() > 0 { t[0] } else { '.' }));
        assert(r.last() == 'e');
        lemma_trimmed_fixed(r);
    }
}

/// Equality up to ASCII case is symmetric and transitive.
proof fn lemma_eq_ascii_case_insensitive(a: Seq<char>, b: Seq<char>, c: Seq<char>)
    ensures
        eq_ascii_case_insensitive(a, a),
        eq_ascii_case_insensitive(a, b) ==> eq_ascii_case_insensitive(b, a),
        eq_ascii_case_insensitive(a, b) && eq_ascii_case_insensitive(b, c)
            ==> eq_ascii_case_insensitive(a, c),
{
    if eq_ascii_case_insensitive(a, b) && eq_ascii_case_insensitive(b, c) {
        assert forall|i: int| 0 <= i < a.len() implies #[trigger] crate::text::ascii_folded(a[i])
            == crate::text::ascii_folded(c[i]) by {
            assert(crate::text::ascii_folded(a[i]) == crate::text::ascii_folded(b[i]));
            assert(crate::text::ascii_folded(b[i]) == crate::text::ascii_folded(c[i]));
        }
    }
}

/// A unit that was added is in the list afterwards, which has grown by one.
pub proof fn law_added_unit_is_listed(before: Seq<Seq<char>>, name: Seq<char>, after: Seq<Seq<char>>)
    requires
        stable_sort_of(after, before.push(name)),
    ensures
        after.contains(name),
        after.len() == before.len() + 1,
        listed_ignoring_case(after, name),
{
    let inp = before.push(name);
    let perm = choose|perm: Seq<int>| permutes(perm, after, inp);
    assert(perm.len() == inp.len());
    // the place of `after` that `name` went to
    assert(exists|i: int| 0 <= i < after.len() && perm[i] == before.len()) by {
        lemma_pigeonhole(perm, before.len() as int);
        let w = choose|i: int| 0 <= i < perm.len() && !(0 <= #[trigger] perm[i] < before.len());
        assert(0 <= perm[w] < inp.len());
    }
    let i = choose|i: int| 0 <= i < after.len() && perm[i] == before.len();
    assert(after[i] == name);
    lemma_eq_ascii_case_insensitive(name, name, name);
}

/// No `n + 1` distinct places fit into the `n` values below `n`.
proof fn lemma_pigeonhole(perm: Seq<int>, n: int)
    requires
        0 <= n,
        perm.len() == n + 1,
        forall|i: int, j: int| 0 <= i < j < perm.len() ==> perm[i] != perm[j],
    ensures
        exists|i: int| 0 <= i < perm.len() && !(0 <= #[trigger] perm[i] < n),
    decreases n,
{
    if n == 0 {
        assert(!(0 <= perm[0] < n));
    } else if exists|i: int| 0 <= i < perm.len() && perm[i] == n - 1 {
        // take the place holding the largest value out
        let k = choose|i: int| 0 <= i < perm.len() && perm[i] == n - 1;
        let rest = perm.remove(k);
        assert forall|i: int, j: int| 0 <= i < j < rest.len() implies rest[i] != rest[j] by {
            if j < k {
            } else if i < k {
                assert(rest[j] == perm[j + 1]);
            } else {
                assert(rest[i] == perm[i + 1] && rest[j] == perm[j + 1]);
            }
        }
        lemma_pigeonhole(rest, n - 1);
        let w = choose|i: int| 0 <= i < rest.len() && !(0 <= #[trigger] rest[i] < n - 1);
        if w < k {
            assert(rest[w] == perm[w]);
            assert(perm[w] != perm[k]);
            assert(!(0 <= perm[w] < n));
        } else {
            assert(rest[w] == perm[w + 1]);
            assert(perm[w + 1] != perm[k]);
            assert(!(0 <= perm[w + 1] < n));
        }
    } else {
        let rest = perm.drop_last();
        lemma_pigeonhole(rest, n - 1);
        let w = choose|i: int| 0 <= i < rest.len() && !(0 <= #[trigger] rest[i] < n - 1);
        assert(rest[w] == perm[w]);
        assert(perm[w] != n - 1);
        assert(!(0 <= perm[w] < n));
    }
}

/// Adding keeps the list free of names equal up to ASCII case: a unit that
/// is listed already is refused, and one that is not joins a list that had
/// no such pair.
pub proof fn law_add_keeps_names_distinct(before: Seq<Seq<char>>, name: Seq<char>, after: Seq<Seq<char>>)
    requires
        distinct_ignoring_case(before),
        !listed_ignoring_case(before, name),
        stable_sort_of(after, before.push(name)),
    ensures
        distinct_ignoring_case(after),
{
    let inp = before.push(name);
    let perm = choose|perm: Seq<int>| permutes(perm, after, inp);
    assert forall|i: int, j: int| 0 <= i < j < after.len() implies !eq_ascii_case_insensitive(
        #[trigger] after[i],
        #[trigger] after[j],
    ) by {
        let a = perm[i];
        let b = perm[j];
        assert(a != b);
        assert(after[i] == inp[a] && after[j] == inp[b]);
        lemma_eq_ascii_case_insensitive(inp[a], inp[b], name);
        lemma_eq_ascii_case_insensitive(inp[b], inp[a], name);
        if a < before.len() && b < before.len() {
            if a < b {
                assert(!eq_ascii_case_insensitive(before[a], before[b]));
            } else {
                assert(!eq_ascii_case_insensitive(before[b], before[a]));
            }
        } else if a < before.len() {
            assert(inp[b] == name);
            assert(!eq_ascii_case_insensitive(before[a], name));
        } else {
            assert(inp[a] == name);
            assert(!eq_ascii_case_insensitive(before[b], name));
        }
    }
}

/// What is left after removing keeps any relation that held between each
/// name and every later one.
proof fn lemma_others_pairwise(s: Seq<Seq<char>>, name: Seq<char>, r: spec_fn(Seq<char>, Seq<char>) -> bool)
    requires
        forall|i: int, j: int| 0 <= i < j < s.len() ==> #[trigger] r(s[i], s[j]),
    ensures
        forall|i: int, j: int|
            0 <= i < j < others(s, name).len() ==> #[trigger] r(others(s, name)[i], others(s, name)[j]),
    decreases s.len(),
{
    reveal(Seq::filter);
    if s.len() > 0 {
        let rest = s.drop_last();
        lemma_others_pairwise(rest, name, r);
        let f = others(rest, name);
        if s.last() != name {
            assert forall|i: int, j: int| 0 <= i < j < others(s, name).len() implies #[trigger] r(
                others(s, name)[i],
                others(s, name)[j],
            ) by {
                assert(others(s, name) == f.push(s.last()));
                if j == f.len() {
                    assert(f.contains(f[i]));
                    rest.lemma_filter_contains_rev(not_named(name), f[i]);
                    let k = choose|k: int| 0 <= k < rest.len() && rest[k] == f[i];
                    assert(r(s[k], s[s.len() - 1]));
                }
            }
        }
    }
}

/// Removing keeps the list in order.
pub proof fn law_remove_keeps_order(before: Seq<Seq<char>>, name: Seq<char>)
    requires
        sorted_by_key(before),
    ensures
        sorted_by_key(others(before, name)),
{
    let r = |a: Seq<char>, b: Seq<char>| !lex_lt(sort_key(b), sort_key(a));
    assert forall|i: int, j: int| 0 <= i < j < before.len() implies #[trigger] r(before[i], before[j]) by {}
    lemma_others_pairwise(before, name, r);
    let o = others(before, name);
    assert forall|i: int, j: int| 0 <= i < j < o.len() implies !lex_lt(sort_key(o[j]), sort_key(o[i])) by {
        assert(r(o[i], o[j]));
    }
}

/// Removing keeps the list free of names equal up to ASCII case.
pub proof fn law_remove_keeps_names_distinct(before: Seq<Seq<char>>, name: Seq<char>)
    requires
        distinct_ignoring_case(before),
    ensures
        distinct_ignoring_case(others(before, name)),
{
    let r = |a: Seq<char>, b: Seq<char>| !eq_ascii_case_insensitive(a, b);
    assert forall|i: int, j: int| 0 <= i < j < before.len() implies #[trigger] r(before[i], before[j]) by {}
    lemma_others_pairwise(before, name, r);
    let o = others(before, name);
    assert forall|i: int, j: int| 0 <= i < j < o.len() implies !eq_ascii_case_insensitive(
        #[trigger] o[i],
        #[trigger] o[j],
    ) by {
        assert(r(o[i], o[j]));
    }
}

/// A removed unit is no longer in the list, so removing it again is refused.
pub proof fn law_removed_unit_is_gone(before: Seq<Seq<char>>, name: Seq<char>)
    ensures
        !others(before, name).contains(name),
{
    if others(before, name).contains(name) {
        let i = choose|i: int| 0 <= i < others(before, name).len() && others(before, name)[i] == name;
        before.lemma_filter_pred(not_named(name), i);
    }
}

/// Filtering by a condition that every name meets changes nothing.
proof fn lemma_others_none_named(s: Seq<Seq<char>>, name: Seq<char>)
    requires
        !s.contains(name),
    ensures
        others(s, name) == s,
    decreases s.len(),
{
    reveal(Seq::filter);
    if s.len() > 0 {
        assert(!s.drop_last().contains(name)) by {
            if s.drop_last().contains(name) {
                let k = choose|k: int| 0 <= k < s.drop_last().len() && s.drop_last()[k] == name;
                assert(s[k] == name);
            }
        }
        lemma_others_none_named(s.drop_last(), name);
        assert(s.last() != name) by {
            assert(s[s.len() - 1] == s.last());
        }
        assert(s.drop_last().push(s.last()) =~= s);
    }
}

/// Removing a unit right after adding it gives back the entries there were
/// before, each as often.
pub proof fn law_remove_undoes_add(before: Seq<Seq<char>>, name: Seq<char>, after: Seq<Seq<char>>)
    requires
        !listed_ignoring_case(before, name),
        stable_sort_of(after, before.push(name)),
    ensures
        is_permutation(others(after, name), before),
{
    broadcast use vstd::seq_lib::group_seq_lib_default;
    let inp = before.push(name);
    let perm = choose|perm: Seq<int>| permutes(perm, after, inp);
    lemma_pigeonhole(perm, before.len() as int);
    let i0 = choose|i: int| 0 <= i < perm.len() && !(0 <= #[trigger] perm[i] < before.len());
    assert(perm[i0] == before.len());
    assert(after[i0] == name);
    assert forall|i: int| 0 <= i < after.len() && i != i0 implies perm[i] < before.len()
        && #[trigger] after[i] != name by {
        if i < i0 {
            assert(perm[i] != perm[i0]);
        } else {
            assert(perm[i0] != perm[i]);
        }
        assert(0 <= perm[i] < inp.len());
        if after[i] == name {
            lemma_eq_ascii_case_insensitive(name, name, name);
            assert(before[perm[i]] == name);
            assert(eq_ascii_case_insensitive(before[perm[i]], name));
        }
    }
    let a = after.take(i0);
    let b = after.skip(i0 + 1);
    assert(after =~= a + seq![name] + b);
    assert(!a.contains(name)) by {
        if a.contains(name) {
            let k = choose|k: int| 0 <= k < a.len() && a[k] == name;
            assert(after[k] == name);
        }
    }
    assert(!b.contains(name)) by {
        if b.contains(name) {
            let k = choose|k: int| 0 <= k < b.len() && b[k] == name;
            assert(after[i0 + 1 + k] == name);
        }
    }
    lemma_others_none_named(a, name);
    lemma_others_none_named(b, name);
    reveal_with_fuel(Seq::filter, 2);
    assert(seq![name].drop_last() =~= Seq::<Seq<char>>::empty());
    assert(others(seq![name], name) =~= Seq::<Seq<char>>::empty());
    let out = others(after, name);
    assert(out =~= a + b);
    let p2 = perm.remove(i0);
    assert forall|i: int| 0 <= i < out.len() implies 0 <= #[trigger] p2[i] < before.len() && out[i]
        == before[p2[i]] by {
        if i < i0 {
            assert(p2[i] == perm[i] && out[i] == after[i]);
        } else {
            assert(p2[i] == perm[i + 1] && out[i] == after[i + 1]);
        }
    }
    assert forall|i: int, j: int| 0 <= i < j < out.len() implies p2[i] != p2[j] by {
        if j < i0 {
        } else if i < i0 {
            assert(p2[j] == perm[j + 1]);
        } else {
            assert(p2[i] == perm[i + 1] && p2[j] == perm[j + 1]);
        }
    }
    assert(permutes(p2, out, before));
}

/// Names are equal up to ASCII case exactly when they have the same length
/// and, place by place, the same character or the same ASCII letter once in
/// upper and once in lower case; no other characters are taken as equal.
pub proof fn law_ascii_case_equality(a: Seq<char>, b: Seq<char>)
    ensures
        eq_ascii_case_insensitive(a, b) <==> (a.len() == b.len() && forall|i: int|
            0 <= i < a.len() ==> #[trigger] a[i] == b[i] || ('A' <= a[i] <= 'Z' && b[i] as int == a[i] as int + 32)
                || ('A' <= b[i] <= 'Z' && a[i] as int == b[i] as int + 32)),
{
    if eq_ascii_case_insensitive(a, b) {
        assert forall|i: int| 0 <= i < a.len() implies #[trigger] a[i] == b[i] || ('A' <= a[i] <= 'Z'
            && b[i] as int == a[i] as int + 32) || ('A' <= b[i] <= 'Z' && a[i] as int == b[i] as int
            + 32) by {
            assert(crate::text::ascii_folded(a[i]) == crate::text::ascii_folded(b[i]));
            if a[i] as int == b[i] as int {
                assert(a[i] == b[i]);
            }
        }
    }
    if a.len() == b.len() && forall|i: int|
        0 <= i < a.len() ==> #[trigger] a[i] == b[i] || ('A' <= a[i] <= 'Z' && b[i] as int == a[i] as int + 32)
            || ('A' <= b[i] <= 'Z' && a[i] as int == b[i] as int + 32) {
        assert forall|i: int| 0 <= i < a.len() implies #[trigger] crate::text::ascii_folded(a[i])
            == crate::text::ascii_folded(b[i]) by {
            assert(a[i] == b[i] || ('A' <= a[i] <= 'Z' && b[i] as int == a[i] as int + 32) || ('A' <= b[i] <= 'Z' && a[i] as int == b[i] as int + 32));
        }
    }
}

/// Strict code-point order of texts: `a` is below `b` exactly when `a` is a
/// proper prefix of `b`, or at the first place where they differ the
/// character of `a` has the lower code point.
pub proof fn law_code_point_order(a: Seq<char>, b: Seq<char>)
    ensures
        lex_lt(a, b) <==> ((a.len() < b.len() && a == b.take(a.len() as int)) || exists|k: int|
            0 <= k < a.len() && k < b.len() && a.take(k) == b.take(k) && (#[trigger] a[k] as int) < (b[k] as int)),
    decreases a.len(),
{
    if a.len() > 0 && b.len() > 0 {
        law_code_point_order(a.drop_first(), b.drop_first());
        let a1 = a.drop_first();
        let b1 = b.drop_first();
        if a[0] == b[0] {
            if lex_lt(a, b) {
                if a1.len() < b1.len() && a1 == b1.take(a1.len() as int) {
                    assert forall|m: int| 0 <= m < a.len() implies #[trigger] a[m] == b.take(a.len() as int)[m] by {
                        if m > 0 {
                            assert(a[m] == a1[m - 1]);
                            assert(a1[m - 1] == b1.take(a1.len() as int)[m - 1]);
                        }
                    }
                    assert(a =~= b.take(a.len() as int));
                } else {
                    let k = choose|k: int| 0 <= k < a1.len() && k < b1.len() && a1.take(k) == b1.take(k) && (#[trigger] a1[k] as int) < (b1[k] as int);
                    assert(a.take(k + 1) =~= b.take(k + 1)) by {
                        assert forall|m: int| 0 <= m < k + 1 implies #[trigger] a.take(k + 1)[m] == b.take(k + 1)[m] by {
                            if m > 0 {
                                assert(a1.take(k)[m - 1] == b1.take(k)[m - 1]);
                            }
                        }
                    }
                    assert(a[k + 1] == a1[k] && b[k + 1] == b1[k]);
                }
            } else {
                if a.len() < b.len() && a == b.take(a.len() as int) {
                    assert(a1 =~= b1.take(a1.len() as int));
                }
                if exists|k: int| 0 <= k < a.len() && k < b.len() && a.take(k) == b.take(k) && (#[trigger] a[k] as int) < (b[k] as int) {
                    let k = choose|k: int| 0 <= k < a.len() && k < b.len() && a.take(k) == b.take(k) && (#[trigger] a[k] as int) < (b[k] as int);
                    assert(k > 0);
                    assert(a1.take(k - 1) =~= b1.take(k - 1)) by {
                        assert forall|m: int| 0 <= m < k - 1 implies #[trigger] a1.take(k - 1)[m] == b1.take(k - 1)[m] by {
                            assert(a.take(k)[m + 1] == b.take(k)[m + 1]);
                        }
                    }
                    assert(a1[k - 1] == a[k] && b1[k - 1] == b[k]);
                }
            }
        } else {
            if lex_lt(a, b) {
                assert(a.take(0) =~= b.take(0));
                assert((a[0] as int) < (b[0] as int));
            } else {
                if exists|k: int| 0 <= k < a.len() && k < b.len() && a.take(k) == b.take(k) && (#[trigger] a[k] as int) < (b[k] as int) {
                    let k = choose|k: int| 0 <= k < a.len() && k < b.len() && a.take(k) == b.take(k) && (#[trigger] a[k] as int) < (b[k] as int);
                    if k > 0 {
                        assert(a.take(k)[0] == b.take(k)[0]);
                    }
                }
                if a.len() < b.len() && a == b.take(a.len() as int) {
                    assert(a[0] == b.take(a.len() as int)[0]);
                }
            }
        }
    } else if a.len() == 0 && b.len() > 0 {
        assert(a =~= b.take(0));
    }
}

/// After adding, the list runs in code-point order of the whole lower-case
/// names: no entry's lower-case name is above that of an entry after it.
pub proof fn law_added_list_sorted_by_lowercase(before: Seq<Seq<char>>, name: Seq<char>, after: Seq<Seq<char>>)
    requires
        stable_sort_of(after, before.push(name)),
    ensures
        forall|i: int, j: int|
            0 <= i < j < after.len() ==> !lex_lt(
                crate::text::lowercase(#[trigger] after[j]),
                crate::text::lowercase(#[trigger] after[i]),
            ),
{
    assert forall|i: int, j: int| 0 <= i < j < after.len() implies !lex_lt(
        crate::text::lowercase(#[trigger] after[j]),
        crate::text::lowercase(#[trigger] after[i]),
    ) by {
        assert(!lex_lt(sort_key(after[j]), sort_key(after[i])));
    }
}

/// The answer of a `systemctl` query is its standard output whenever there
/// is any, whatever the exit status; else its error output when there is
/// any; else `ok` on success and `unknown` on failure.
pub proof fn law_state_answer(success: bool, stdout: Seq<u8>, stderr: Seq<u8>)
    ensures
        trimmed(crate::text::utf8_lossy(stdout)).len() > 0 ==> state_answer(success, stdout, stderr)
            == trimmed(crate::text::utf8_lossy(stdout)),
        trimmed(crate::text::utf8_lossy(stdout)).len() == 0 && trimmed(crate::text::utf8_lossy(stderr)).len() > 0
            ==> state_answer(success, stdout, stderr) == trimmed(crate::text::utf8_lossy(stderr)),
        trimmed(crate::text::utf8_lossy(stdout)).len() == 0 && trimmed(crate::text::utf8_lossy(stderr)).len() == 0
            ==> state_answer(success, stdout, stderr) == (if success { "ok"@ } else { "unknown"@ }),
{
}

/// A successful lookup reports the unit missing exactly when its trimmed
/// load state is `not-found` up to ASCII case; any other load state, such as
/// `loaded` or `masked`, means that the unit exists.
pub proof fn law_existence_on_success(name: Seq<char>, stdout: Seq<u8>, stderr: Seq<u8>)
    ensures
        existence_answer(name, true, stdout, stderr) == Ok::<bool, Seq<char>>(
            !eq_ascii_case_insensitive(trimmed(crate::text::utf8_lossy(stdout)), "not-found"@),
        ),
{
}

/// A failed lookup reports the unit missing exactly when its trimmed error
/// output mentions `could not be found` or `not-found`; otherwise it is an
/// error that names the unit and quotes that output, or says `unknown error`
/// when there is none.
pub proof fn law_existence_on_failure(name: Seq<char>, stdout: Seq<u8>, stderr: Seq<u8>)
    ensures
        ({
            let err = trimmed(crate::text::utf8_lossy(stderr));
            let missing = has_substring(err, "could not be found"@) || has_substring(err, "not-found"@);
            &&& missing ==> existence_answer(name, false, stdout, stderr) == Ok::<bool, Seq<char>>(false)
            &&& !missing && err.len() == 0 ==> existence_answer(name, false, stdout, stderr)
                == Err::<bool, Seq<char>>("Failed to verify service "@ + name + ": "@ + "unknown error"@)
            &&& !missing && err.len() > 0 ==> existence_answer(name, false, stdout, stderr)
                == Err::<bool, Seq<char>>("Failed to verify service "@ + name + ": "@ + err)
        }),
{
}

/// A state change succeeds exactly when `systemctl` exits with success;
/// a failure is reported by its trimmed error output, or, when that is
/// empty, by a message naming the verb, the unit and the exit status.
pub proof fn law_action_outcome(name: Seq<char>, action: ServiceAction, success: bool, stderr: Seq<u8>, status: Seq<char>)
    ensures
        (action_answer(name, action, success, stderr, status) is Ok) == success,
        !success && trimmed(crate::text::utf8_lossy(stderr)).len() > 0 ==> action_answer(
            name,
            action,
            success,
            stderr,
            status,
        ) == Err::<(), Seq<char>>(trimmed(crate::text::utf8_lossy(stderr))),
        !success && trimmed(crate::text::utf8_lossy(stderr)).len() == 0 ==> action_answer(
            name,
            action,
            success,
            stderr,
            status,
        ) == Err::<(), Seq<char>>("systemctl "@ + action.verb() + " "@ + name
            + " failed with exit code "@ + status),
{
}

/// Every value below `n` is taken by some place of an injective map of `n`
/// places into the values below `n`.
proof fn lemma_onto(perm: Seq<int>, v: int)
    requires
        0 <= v < perm.len(),
        forall|i: int| 0 <= i < perm.len() ==> 0 <= #[trigger] perm[i] < perm.len(),
        forall|i: int, j: int| 0 <= i < j < perm.len() ==> perm[i] != perm[j],
    ensures
        exists|i: int| 0 <= i < perm.len() && perm[i] == v,
{
    if forall|i: int| 0 <= i < perm.len() ==> perm[i] != v {
        let q = Seq::new(perm.len(), |i: int| if perm[i] > v { perm[i] - 1 } else { perm[i] });
        assert forall|i: int, j: int| 0 <= i < j < q.len() implies q[i] != q[j] by {
            assert(perm[i] != perm[j] && perm[i] != v && perm[j] != v);
        }
        lemma_pigeonhole(q, perm.len() - 1);
        let w = choose|i: int| 0 <= i < q.len() && !(0 <= #[trigger] q[i] < perm.len() - 1);
        assert(perm[w] != v);
    }
}

/// Adding moves no entry in or out but the new one: the list afterwards has
/// one entry more, each of its entries was in the list or is the new unit,
/// and each entry of the list and the new unit are in it.
pub proof fn law_added_entries(before: Seq<Seq<char>>, name: Seq<char>, after: Seq<Seq<char>>)
    requires
        stable_sort_of(after, before.push(name)),
    ensures
        after.len() == before.len() + 1,
        forall|i: int| 0 <= i < after.len() ==> before.contains(#[trigger] after[i]) || after[i] == name,
        forall|j: int| 0 <= j < before.len() ==> after.contains(#[trigger] before[j]),
        after.contains(name),
{
    let inp = before.push(name);
    let perm = choose|perm: Seq<int>| permutes(perm, after, inp);
    assert forall|i: int| 0 <= i < after.len() implies before.contains(#[trigger] after[i]) || after[i] == name by {
        let k = perm[i];
        assert(after[i] == inp[k]);
        if k < before.len() {
            assert(before[k] == inp[k]);
        }
    }
    assert forall|j: int| 0 <= j < inp.len() implies after.contains(#[trigger] inp[j]) by {
        lemma_onto(perm, j);
        let i = choose|i: int| 0 <= i < perm.len() && perm[i] == j;
        assert(after[i] == inp[j]);
    }
    assert forall|j: int| 0 <= j < before.len() implies after.contains(#[trigger] before[j]) by {
        assert(inp[j] == before[j]);
    }
    assert(after.contains(inp[before.len() as int]));
}

/// Names of equal lower-case form keep, after adding, the order they had in
/// the list with the new unit at its end.
pub proof fn law_added_keeps_equal_keys_in_order(before: Seq<Seq<char>>, name: Seq<char>, after: Seq<Seq<char>>, k: Seq<char>)
    requires
        stable_sort_of(after, before.push(name)),
    ensures
        after.filter(|n: Seq<char>| crate::text::lowercase(n) == k) == before.push(name).filter(
            |n: Seq<char>| crate::text::lowercase(n) == k,
        ),
{
    assert(crate::process::key_group(after, k) == crate::process::key_group(before.push(name), k));
    let f1 = |n: Seq<char>| crate::text::lowercase(n) == k;
    let f2 = |n: Seq<char>| sort_key(n) == k;
    assert(f1 =~= f2);
}

/// Removing keeps, in their order, exactly the entries of another name: each
/// entry left was in the list and is not of that name, and each entry of
/// another name is left.
pub proof fn law_remove_result(before: Seq<Seq<char>>, name: Seq<char>)
    ensures
        forall|i: int| 0 <= i < others(before, name).len() ==> #[trigger] others(before, name)[i] != name
            && before.contains(others(before, name)[i]),
        forall|j: int| 0 <= j < before.len() && #[trigger] before[j] != name ==> others(before, name).contains(before[j]),
{
    broadcast use vstd::seq_lib::group_filter_ensures;
    assert forall|i: int| 0 <= i < others(before, name).len() implies #[trigger] others(before, name)[i] != name
        && before.contains(others(before, name)[i]) by {
        before.lemma_filter_pred(not_named(name), i);
        assert(others(before, name).contains(others(before, name)[i]));
        before.lemma_filter_contains_rev(not_named(name), others(before, name)[i]);
    }
    assert forall|j: int| 0 <= j < before.len() && #[trigger] before[j] != name implies others(before, name).contains(before[j]) by {
        before.lemma_filter_contains(not_named(name), j);
    }
}

/// A unit counts as listed exactly when some entry has its name up to ASCII
/// case: same length, and at each place the same character or the same ASCII
/// letter in the other case.
pub proof fn law_listed_means_an_entry_matches(s: Seq<Seq<char>>, name: Seq<char>)
    ensures
        listed_ignoring_case(s, name) <==> exists|i: int|
            0 <= i < s.len() && (#[trigger] s[i]).len() == name.len() && forall|m: int|
                0 <= m < name.len() ==> #[trigger] s[i][m] == name[m] || ('A' <= s[i][m] <= 'Z' && name[m] as int
                    == s[i][m] as int + 32) || ('A' <= name[m] <= 'Z' && s[i][m] as int == name[m] as int + 32),
{
    assert forall|i: int| 0 <= i < s.len() implies (eq_ascii_case_insensitive(#[trigger] s[i], name) <==> (s[i].len()
        == name.len() && forall|m: int|
        0 <= m < name.len() ==> #[trigger] s[i][m] == name[m] || ('A' <= s[i][m] <= 'Z' && name[m] as int
            == s[i][m] as int + 32) || ('A' <= name[m] <= 'Z' && s[i][m] as int == name[m] as int + 32))) by {
        law_ascii_case_equality(s[i], name);
    }
}

} // verus!
