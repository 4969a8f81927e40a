//! The managed list of units: names, their normal form, adding and removing.
use vstd::prelude::*;
use crate::text::{
    chars_of, contains_char, eq_ascii_case_insensitive, eq_ignore_ascii_case, lemma_lex_lt_irreflexive,
    lemma_lex_lt_total, lemma_lex_lt_transitive, lex_less, lex_lt, lowercase, to_lowercase, trim,
    trimmed,
};

verus! {

/// A unit in the managed list, known by its name.
#[derive(Debug)]
pub struct Process {
    name: String,
}

impl View for Process {
    type V = Seq<char>;

    closed spec fn view(&self) -> Seq<char> {
        self.name@
    }
}

impl Process {
    /// A list entry for the unit `name`.
    pub fn new(name: String) -> (p: Self)
        ensures
            p@ == name@,
    {
        Process { name }
    }

    /// The unit's name.
    pub fn name(&self) -> (r: &str)
        ensures
            r@ == self@,
    {
        self.name.as_str()
    }
}

/// The manager of the list of units and of the units themselves.
pub struct ProcessManager;

/// The unit name that an entered name stands for: the name without white
/// space at its ends, with `.service` appended when it names no unit type.
pub open spec fn normalized(name: Seq<char>) -> Seq<char> {
    let t = trimmed(name);
    if t.contains('.') {
        t
    } else {
        t + ".service"@
    }
}

impl ProcessManager {
    /// The unit name that an entered name stands for.
    pub fn normalize_name(name: &str) -> (r: String)
        ensures
            r@ == normalized(name@),
    {
        let mut t = trim(name);
        if contains_char(t.as_str(), '.') {
            t
        } else {
            t.append(".service");
            t
        }
    }
}

/// The names of the entries of a list, in order.
pub open spec fn names(list: Seq<Process>) -> Seq<Seq<char>> {
    list.map_values(|p: Process| p@)
}

/// The key by which the list is ordered: the name in lower case.
pub open spec fn sort_key(name: Seq<char>) -> Seq<char> {
    lowercase(name)
}

/// The names ordered by their keys, in code-point order.
pub open spec fn sorted_by_key(s: Seq<Seq<char>>) -> bool {
    forall|i: int, j: int| 0 <= i < j < s.len() ==> !lex_lt(sort_key(s[j]), sort_key(s[i]))
}

/// The names of `s` whose key is `k`, in their order in `s`.
pub open spec fn key_group(s: Seq<Seq<char>>, k: Seq<char>) -> Seq<Seq<char>> {
    s.filter(|n: Seq<char>| sort_key(n) == k)
}

/// `perm` takes each place of `out` to the place of `inp` that it came from,
/// no two places to the same one.
pub open spec fn permutes(perm: Seq<int>, out: Seq<Seq<char>>, inp: Seq<Seq<char>>) -> bool {
    &&& perm.len() == out.len()
    &&& out.len() == inp.len()
    &&& forall|i: int| 0 <= i < out.len() ==> 0 <= #[trigger] perm[i] < inp.len() && out[i] == inp[perm[i]]
    &&& forall|i: int, j: int| 0 <= i < j < out.len() ==> perm[i] != perm[j]
}

/// `out` holds the names of `inp`, each as often, in some order.
pub open spec fn is_permutation(out: Seq<Seq<char>>, inp: Seq<Seq<char>>) -> bool {
    exists|perm: Seq<int>| permutes(perm, out, inp)
}

/// `out` is `inp` sorted by key, names of equal key keeping their order:
/// what a stable sort by key returns.
pub open spec fn stable_sort_of(out: Seq<Seq<char>>, inp: Seq<Seq<char>>) -> bool {
    &&& sorted_by_key(out)
    &&& is_permutation(out, inp)
    &&& forall|k: Seq<char>| #[trigger] key_group(out, k) == key_group(inp, k)
}

/// Whether a name equal to `name` up to ASCII case is in `s`.
pub open spec fn listed_ignoring_case(s: Seq<Seq<char>>, name: Seq<char>) -> bool {
    exists|i: int| 0 <= i < s.len() && eq_ascii_case_insensitive(#[trigger] s[i], name)
}

/// The names of `s` other than `name`, in order.
pub open spec fn others(s: Seq<Seq<char>>, name: Seq<char>) -> Seq<Seq<char>> {
    s.filter(not_named(name))
}

/// Whether a name differs from `name`.
pub open spec fn not_named(name: Seq<char>) -> spec_fn(Seq<char>) -> bool {
    |n: Seq<char>| n != name
}

proof fn lemma_lex_le_transitive(a: Seq<char>, b: Seq<char>, c: Seq<char>)
    requires
        !lex_lt(b, a),
        !lex_lt(c, b),
    ensures
        !lex_lt(c, a),
{
    if lex_lt(c, a) {
        if a == b {
        } else {
            lemma_lex_lt_total(a, b);
            lemma_lex_lt_transitive(c, a, b);
        }
    }
}

/// A group of a sequence none of whose names has the key is empty.
proof fn lemma_group_empty(s: Seq<Seq<char>>, k: Seq<char>)
    requires
        forall|i: int| 0 <= i < s.len() ==> sort_key(#[trigger] s[i]) != k,
    ensures
        key_group(s, k) == Seq::<Seq<char>>::empty(),
    decreases s.len(),
{
    reveal(Seq::filter);
    if s.len() > 0 {
        lemma_group_empty(s.drop_last(), k);
    }
}

proof fn lemma_group_single(x: Seq<char>, k: Seq<char>)
    ensures
        key_group(seq![x], k) == (if sort_key(x) == k { seq![x] } else { Seq::<Seq<char>>::empty() }),
{
    reveal_with_fuel(Seq::filter, 2);
    assert(seq![x].drop_last() =~= Seq::<Seq<char>>::empty());
}

/// Inserting `x` after every name of key at most its key and before every
/// name of greater key keeps the groups of equal key in order.
proof fn lemma_insert_groups(n: Seq<Seq<char>>, pos: int, x: Seq<char>, k: Seq<char>)
    requires
        0 <= pos <= n.len(),
        forall|j: int| pos <= j < n.len() ==> lex_lt(sort_key(x), sort_key(#[trigger] n[j])),
    ensures
        key_group(n.insert(pos, x), k) == (if sort_key(x) == k {
            key_group(n, k).push(x)
        } else {
            key_group(n, k)
        }),
{
    broadcast use vstd::seq_lib::group_seq_lib_default;
    let a = n.take(pos);
    let b = n.skip(pos);
    assert(n =~= a + b);
    assert(n.insert(pos, x) =~= a + seq![x] + b);
    lemma_group_single(x, k);
    if sort_key(x) == k {
        assert forall|j: int| 0 <= j < b.len() implies sort_key(#[trigger] b[j]) != k by {
            assert(b[j] == n[pos + j]);
            lemma_lex_lt_irreflexive(k);
        }
        lemma_group_empty(b, k);
        assert(key_group(n, k) =~= key_group(a, k));
        assert(key_group(a + seq![x] + b, k) =~= key_group(a, k).push(x));
    } else {
        assert(key_group(a + seq![x] + b, k) =~= key_group(a, k) + key_group(b, k));
    }
}

fn sort_key_chars(p: &Process) -> (k: Vec<char>)
    ensures
        k@ == sort_key(p@),
{
    let lower = to_lowercase(p.name());
    chars_of(lower.as_str())
}

/// The list sorted by key, stably.
fn sort_by_key(list: Vec<Process>) -> (out: Vec<Process>)
    ensures
        stable_sort_of(names(out@), names(list@)),
{
    let ghost orig = names(list@);
    let mut rest = list;
    let mut out: Vec<Process> = Vec::new();
    let mut keys: Vec<Vec<char>> = Vec::new();
    let ghost mut done: int = 0;
    let ghost mut perm: Seq<int> = Seq::empty();
    assert(names(rest@) =~= orig.skip(0));
    assert(forall|k: Seq<char>| #[trigger] key_group(names(out@), k) == key_group(orig.take(0), k)) by {
        assert(names(out@) =~= orig.take(0));
    }
    while rest.len() > 0
        invariant
            0 <= done <= orig.len(),
            names(rest@) == orig.skip(done),
            keys@.len() == out@.len(),
            forall|i: int| 0 <= i < keys@.len() ==> (#[trigger] keys@[i])@ == sort_key(names(out@)[i]),
            sorted_by_key(names(out@)),
            permutes(perm, names(out@), orig.take(done)),
            forall|k: Seq<char>| #[trigger] key_group(names(out@), k) == key_group(orig.take(done), k),
        decreases rest@.len(),
    {
        let ghost n = names(out@);
        let ghost rest_before = rest@;
        let ghost keys_before = keys@;
        let p = rest.remove(0);
        let ghost x = p@;
        assert(names(rest_before).len() == rest_before.len());
        assert(done < orig.len());
        assert(x == orig[done]) by {
            assert(names(rest_before)[0] == rest_before[0]@);
            assert(names(rest_before)[0] == orig.skip(done)[0]);
        }
        let k = sort_key_chars(&p);
        let mut pos: usize = out.len();
        while pos > 0 && lex_less(&k, &keys[pos - 1])
            invariant
                pos <= out@.len(),
                n == names(out@),
                keys@.len() == out@.len(),
                forall|i: int| 0 <= i < keys@.len() ==> (#[trigger] keys@[i])@ == sort_key(n[i]),
                k@ == sort_key(x),
                forall|j: int| pos <= j < n.len() ==> lex_lt(sort_key(x), sort_key(#[trigger] n[j])),
            decreases pos,
        {
            pos = pos - 1;
        }
        out.insert(pos, p);
        keys.insert(pos, k);
        proof {
            let m = names(out@);
            assert(m =~= n.insert(pos as int, x));
            assert forall|i: int| 0 <= i < names(rest@).len() implies names(rest@)[i] == orig.skip(done + 1)[i] by {
                assert(rest@[i] == rest_before[i + 1]);
                assert(names(rest_before)[i + 1] == orig.skip(done)[i + 1]);
            }
            assert(names(rest@) =~= orig.skip(done + 1));
            assert(orig.take(done + 1) =~= orig.take(done).push(x));
            // sortedness
            assert forall|i: int, j: int| 0 <= i < j < m.len() implies !lex_lt(sort_key(m[j]), sort_key(m[i])) by {
                let q = pos as int;
                if pos > 0 {
                    assert(!lex_lt(sort_key(x), sort_key(n[q - 1]))) by {
                        assert(keys@[q - 1]@ == sort_key(n[q - 1]));
                    }
                }
                if j < q {
                    assert(m[i] == n[i] && m[j] == n[j]);
                } else if j == q {
                    assert(m[j] == x);
                    if i < q - 1 {
                        lemma_lex_le_transitive(sort_key(n[i]), sort_key(n[q - 1]), sort_key(x));
                    }
                } else if i > q {
                    assert(m[i] == n[i - 1] && m[j] == n[j - 1]);
                } else if i == q {
                    assert(m[j] == n[j - 1]);
                    lemma_lex_lt_irreflexive(sort_key(x));
                    if lex_lt(sort_key(n[j - 1]), sort_key(x)) {
                        lemma_lex_lt_transitive(sort_key(n[j - 1]), sort_key(x), sort_key(n[j - 1]));
                        lemma_lex_lt_irreflexive(sort_key(n[j - 1]));
                    }
                } else {
                    assert(m[i] == n[i] && m[j] == n[j - 1]);
                    assert(!lex_lt(sort_key(n[j - 1]), sort_key(n[i])));
                }
            }
            // groups
            assert forall|kk: Seq<char>| #[trigger] key_group(m, kk) == key_group(orig.take(done + 1), kk) by {
                lemma_insert_groups(n, pos as int, x, kk);
                orig.take(done).lemma_filter_push(x, |s: Seq<char>| sort_key(s) == kk);
            }
            // place of origin
            let np = perm.insert(pos as int, done);
            assert forall|i: int| 0 <= i < m.len() implies 0 <= #[trigger] np[i] < orig.take(done + 1).len()
                && m[i] == orig.take(done + 1)[np[i]] by {
                if i < pos {
                    assert(np[i] == perm[i]);
                } else if i > pos {
                    assert(np[i] == perm[i - 1]);
                }
            }
            assert forall|i: int, j: int| 0 <= i < j < m.len() implies np[i] != np[j] by {
                if i < pos && j < pos {
                } else if i < pos && j == pos {
                    assert(np[i] == perm[i]);
                } else if i < pos {
                    assert(np[i] == perm[i] && np[j] == perm[j - 1]);
                } else if i == pos {
                    assert(np[j] == perm[j - 1]);
                } else {
                    assert(np[i] == perm[i - 1] && np[j] == perm[j - 1]);
                }
            }
            perm = np;
            done = done + 1;
            assert forall|i: int| 0 <= i < keys@.len() implies (#[trigger] keys@[i])@ == sort_key(names(out@)[i]) by {
                if i < pos {
                } else if i > pos {
                    assert(keys@[i] == keys_before[i - 1]);
                }
            }
        }
    }
    proof {
        assert(orig.take(done) =~= orig);
        assert(permutes(perm, names(out@), orig));
    }
    out
}

fn string_of(s: &str) -> (r: String)
    ensures
        r@ == s@,
{
    s.to_owned()
}

impl ProcessManager {
    /// The unit name that an entered name stands for, refused when nothing
    /// but white space was entered.
    pub fn checked_name(process_name: &str) -> (r: Result<String, String>)
        ensures
            match r {
                Ok(n) => n@ == normalized(process_name@) && n@.len() > 0 && n@ != ".service"@,
                Err(e) => (normalized(process_name@).len() == 0 || normalized(process_name@)
                    == ".service"@) && e@ == "Service name cannot be empty"@,
            },
    {
        let normalized = Self::normalize_name(process_name);
        if normalized.unicode_len() == 0 || normalized == string_of(".service") {
            return Err(string_of("Service name cannot be empty"));
        }
        Ok(normalized)
    }

    /// Whether the stored list holds nothing but white space, which reads as
    /// an empty list.
    pub fn stored_list_is_blank(data: &str) -> (b: bool)
        ensures
            b == (trimmed(data@).len() == 0),
    {
        let t = trim(data);
        t.unicode_len() == 0
    }

    /// Whether a name equal to `name` up to ASCII case is in the list.
    pub fn is_listed(all_processes: &Vec<Process>, name: &str) -> (b: bool)
        ensures
            b == listed_ignoring_case(names(all_processes@), name@),
    {
        let ghost s = names(all_processes@);
        let mut i: usize = 0;
        while i < all_processes.len()
            invariant
                0 <= i <= all_processes@.len(),
                s == names(all_processes@),
                forall|j: int| 0 <= j < i ==> !eq_ascii_case_insensitive(#[trigger] s[j], name@),
            decreases all_processes@.len() - i,
        {
            assert(s[i as int] == all_processes@[i as int]@);
            if eq_ignore_ascii_case(all_processes[i].name(), name) {
                return true;
            }
            i = i + 1;
        }
        false
    }

    /// The list with the unit `normalized` added, sorted by lower-case name;
    /// refused when the unit is listed already, up to ASCII case.
    pub fn new_process(all_processes: Vec<Process>, normalized: String) -> (r: Result<Vec<Process>, String>)
        ensures
            match r {
                Ok(list) => !listed_ignoring_case(names(all_processes@), normalized@)
                    && stable_sort_of(names(list@), names(all_processes@).push(normalized@)),
                Err(e) => listed_ignoring_case(names(all_processes@), normalized@) && e@
                    == normalized@ + " is already in your managed list"@,
            },
    {
        if Self::is_listed(&all_processes, normalized.as_str()) {
            let mut msg = normalized;
            msg.append(" is already in your managed list");
            return Err(msg);
        }
        let mut list = all_processes;
        let ghost before = names(list@);
        list.push(Process::new(normalized));
        assert(names(list@) =~= before.push(normalized@));
        Ok(sort_by_key(list))
    }

    /// The list without the entries named `process_name`; refused when there
    /// is none.
    pub fn remove_process(all_processes: Vec<Process>, process_name: &str) -> (r: Result<Vec<Process>, String>)
        ensures
            match r {
                Ok(list) => names(all_processes@).contains(process_name@) && names(list@)
                    == others(names(all_processes@), process_name@),
                Err(e) => !names(all_processes@).contains(process_name@) && e@ == process_name@
                    + " was not found in your managed list"@,
            },
    {
        let ghost orig = names(all_processes@);
        let target = string_of(process_name);
        let mut rest = all_processes;
        let mut kept: Vec<Process> = Vec::new();
        let mut found = false;
        let ghost mut done: int = 0;
        assert(names(rest@) =~= orig.skip(0));
        assert(names(kept@) =~= others(orig.take(0), process_name@)) by {
            reveal(Seq::filter);
        }
        while rest.len() > 0
            invariant
                0 <= done <= orig.len(),
                target@ == process_name@,
                names(rest@) == orig.skip(done),
                names(kept@) == others(orig.take(done), process_name@),
                found == orig.take(done).contains(process_name@),
            decreases rest@.len(),
        {
            let ghost rest_before = rest@;
            let ghost kept_before = names(kept@);
            let p = rest.remove(0);
            assert(names(rest_before).len() == rest_before.len());
            assert(p@ == orig[done]) by {
                assert(names(rest_before)[0] == rest_before[0]@);
                assert(names(rest_before)[0] == orig.skip(done)[0]);
            }
            let same = p.name == target;
            if same {
                found = true;
            } else {
                kept.push(p);
            }
            proof {
                assert forall|i: int| 0 <= i < names(rest@).len() implies names(rest@)[i]
                    == orig.skip(done + 1)[i] by {
                    assert(rest@[i] == rest_before[i + 1]);
                    assert(names(rest_before)[i + 1] == orig.skip(done)[i + 1]);
                }
                assert(names(rest@) =~= orig.skip(done + 1));
                assert(orig.take(done + 1) =~= orig.take(done).push(orig[done]));
                orig.take(done).lemma_filter_push(orig[done], not_named(process_name@));
                if !same {
                    assert(names(kept@) =~= kept_before.push(orig[done]));
                }
                assert(orig.take(done + 1).contains(process_name@) == (orig.take(done).contains(
                    process_name@,
                ) || orig[done] == process_name@)) by {
                    if orig.take(done + 1).contains(process_name@) {
                        let w = choose|w: int| 0 <= w < done + 1 && #[trigger] orig.take(done + 1)[w] == process_name@;
                        if w < done {
                            assert(orig.take(done)[w] == process_name@);
                        }
                    }
                    if orig.take(done).contains(process_name@) {
                        let w = choose|w: int| 0 <= w < done && #[trigger] orig.take(done)[w] == process_name@;
                        assert(orig.take(done + 1)[w] == process_name@);
                    }
                    if orig[done] == process_name@ {
                        assert(orig.take(done + 1)[done] == process_name@);
                    }
                }
                done = done + 1;
            }
        }
        proof {
            assert(orig.take(done) =~= orig);
        }
        if !found {
            let mut msg = target;
            msg.append(" was not found in your managed list");
            return Err(msg);
        }
        Ok(kept)
    }
}

} // verus!
