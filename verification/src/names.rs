//! Sorted sets of field names: the order of `str` (by code point, a
//! prefix first) and the sorted, duplicate-free selections of names that
//! a comparison of two traces works on.
use vstd::prelude::*;

use crate::header::{names_field, string_texts};
use crate::text::{chars_of, str_eq};

verus! {

/// Whether `a` comes before `b` in the order of `str`: the first differing
/// character decides by code point, and a proper prefix comes first.
pub open spec fn text_lt(a: Seq<char>, b: Seq<char>) -> bool
    decreases a.len(),
{
    if a.len() == 0 {
        b.len() > 0
    } else if b.len() == 0 {
        false
    } else if a[0] != b[0] {
        (a[0] as int) < (b[0] as int)
    } else {
        text_lt(a.drop_first(), b.drop_first())
    }
}

/// Whether a list of names is in strictly ascending order (so holds no
/// name twice).
pub open spec fn strictly_sorted(s: Seq<Seq<char>>) -> bool {
    forall|i: int, j: int| 0 <= i < j < s.len() ==> text_lt(#[trigger] s[i], #[trigger] s[j])
}

/// No name comes before itself.
pub proof fn lemma_text_lt_irreflexive(a: Seq<char>)
    ensures
        !text_lt(a, a),
    decreases a.len(),
{
    if a.len() > 0 {
        lemma_text_lt_irreflexive(a.drop_first());
    }
}

/// The order is transitive.
pub proof fn lemma_text_lt_transitive(a: Seq<char>, b: Seq<char>, c: Seq<char>)
    requires
        text_lt(a, b),
        text_lt(b, c),
    ensures
        text_lt(a, c),
    decreases a.len(),
{
    if a.len() > 0 && b.len() > 0 && c.len() > 0 && a[0] == b[0] && b[0] == c[0] {
        lemma_text_lt_transitive(a.drop_first(), b.drop_first(), c.drop_first());
    }
}

/// Of two different names, one comes first.
pub proof fn lemma_text_lt_total(a: Seq<char>, b: Seq<char>)
    requires
        a != b,
    ensures
        text_lt(a, b) || text_lt(b, a),
    decreases a.len(),
{
    if a.len() > 0 && b.len() > 0 && a[0] == b[0] {
        if a.drop_first() == b.drop_first() {
            assert(a =~= seq![a[0]] + a.drop_first());
            assert(b =~= seq![b[0]] + b.drop_first());
        }
        lemma_text_lt_total(a.drop_first(), b.drop_first());
    } else if a.len() > 0 && b.len() > 0 {
        assert((a[0] as int) != (b[0] as int));
    } else if a.len() == 0 && b.len() == 0 {
        assert(a =~= b);
    }
}

proof fn lemma_text_lt_skip(a: Seq<char>, b: Seq<char>, i: int)
    requires
        0 <= i <= a.len(),
        i <= b.len(),
        a.take(i) == b.take(i),
    ensures
        text_lt(a, b) == text_lt(a.skip(i), b.skip(i)),
    decreases i,
{
    if i > 0 {
        assert(a.take(i - 1) =~= a.take(i).take(i - 1));
        assert(b.take(i - 1) =~= b.take(i).take(i - 1));
        lemma_text_lt_skip(a, b, i - 1);
        assert(a[i - 1] == a.take(i)[i - 1]);
        assert(b[i - 1] == b.take(i)[i - 1]);
        assert(a.skip(i - 1).drop_first() =~= a.skip(i));
        assert(b.skip(i - 1).drop_first() =~= b.skip(i));
    } else {
        assert(a.skip(0) =~= a);
        assert(b.skip(0) =~= b);
    }
}

/// Whether `a` comes before `b` in the order of `str`.
pub fn text_lt_exec(a: &str, b: &str) -> (r: bool)
    ensures
        r == text_lt(a@, b@),
{
    let va = chars_of(a);
    let vb = chars_of(b);
    let mut i: usize = 0;
    while i < va.len() && i < vb.len() && va[i] == vb[i]
        invariant
            i <= va@.len(),
            i <= vb@.len(),
            va@ == a@,
            vb@ == b@,
            va@.take(i as int) == vb@.take(i as int),
        decreases va@.len() - i,
    {
        assert(va@.take(i + 1) =~= va@.take(i as int).push(va@[i as int]));
        assert(vb@.take(i + 1) =~= vb@.take(i as int).push(vb@[i as int]));
        i += 1;
    }
    proof {
        lemma_text_lt_skip(va@, vb@, i as int);
    }
    if i == va.len() {
        i < vb.len()
    } else if i == vb.len() {
        false
    } else {
        let ca = va[i];
        let cb = vb[i];
        ca < cb
    }
}

/// Add a name to a strictly sorted list of names, unless it is there.
fn insert_name(out: &mut Vec<String>, x: &str)
    requires
        strictly_sorted(string_texts(old(out)@)),
    ensures
        strictly_sorted(string_texts(final(out)@)),
        forall|n: Seq<char>|
            string_texts(final(out)@).contains(n) <==> (string_texts(old(out)@).contains(n) || n == x@),
{
    let ghost s = string_texts(out@);
    let n = out.len();
    let mut p: usize = 0;
    while p < n && text_lt_exec(out[p].as_str(), x)
        invariant
            p <= n,
            n == out@.len(),
            s == string_texts(out@),
            forall|k: int| 0 <= k < p ==> text_lt(#[trigger] s[k], x@),
        decreases n - p,
    {
        p += 1;
    }
    if p < n && str_eq(out[p].as_str(), x) {
        assert(s[p as int] == x@);
        return ;
    }
    proof {
        if p < n {
            assert(!text_lt(s[p as int], x@));
            lemma_text_lt_total(s[p as int], x@);
            assert(text_lt(x@, s[p as int]));
            assert forall|k: int| p <= k < n implies text_lt(x@, #[trigger] s[k]) by {
                if k > p {
                    lemma_text_lt_transitive(x@, s[p as int], s[k]);
                }
            }
        }
    }
    let y = crate::text::string_of(&chars_of(x));
    out.insert(p, y);
    let ghost t = string_texts(out@);
    assert(t =~= s.take(p as int).push(x@) + s.skip(p as int));
    assert forall|i: int, j: int| 0 <= i < j < t.len() implies text_lt(#[trigger] t[i], #[trigger] t[j]) by {
        if j < p {
            assert(t[i] == s[i] && t[j] == s[j]);
        } else if j == p {
            assert(t[i] == s[i]);
        } else if i < p {
            assert(t[i] == s[i] && t[j] == s[j - 1]);
            lemma_text_lt_transitive(s[i], x@, s[j - 1]);
        } else if i == p {
            assert(t[j] == s[j - 1]);
        } else {
            assert(t[i] == s[i - 1] && t[j] == s[j - 1]);
        }
    }
    assert forall|m: Seq<char>| t.contains(m) <==> (s.contains(m) || m == x@) by {
        if t.contains(m) {
            let i = choose|i: int| 0 <= i < t.len() && t[i] == m;
            if i < p {
                assert(s[i] == m);
            } else if i > p {
                assert(s[i - 1] == m);
            }
        }
        if s.contains(m) {
            let i = choose|i: int| 0 <= i < s.len() && s[i] == m;
            if i < p {
                assert(t[i] == m);
            } else {
                assert(t[i + 1] == m);
            }
        }
        if m == x@ {
            assert(t[p as int] == m);
        }
    }
}

/// Whether a name passes an optional allow-list and an optional deny-list.
pub open spec fn passes_filters(
    allow: Option<Seq<Seq<char>>>,
    deny: Option<Seq<Seq<char>>>,
    n: Seq<char>,
) -> bool {
    &&& (allow matches Some(inc) ==> inc.contains(n))
    &&& (deny matches Some(exc) ==> !exc.contains(n))
}

/// The texts of an optional list of strings.
pub open spec fn opt_texts(v: Option<Vec<String>>) -> Option<Seq<Seq<char>>> {
    match v {
        Some(w) => Some(string_texts(w@)),
        None => None,
    }
}

fn passes_filters_exec(allow: &Option<Vec<String>>, deny: &Option<Vec<String>>, n: &str) -> (r: bool)
    ensures
        r == passes_filters(opt_texts(*allow), opt_texts(*deny), n@),
{
    let inc = match allow {
        Some(v) => {
            let c = crate::header::contains_name(v, n);
            assert(c == string_texts(v@).contains(n@)) by {
                if c {
                    let i = choose|i: int| 0 <= i < v@.len() && #[trigger] v@[i]@ == n@;
                    assert(string_texts(v@)[i] == n@);
                }
                if string_texts(v@).contains(n@) {
                    let i = choose|i: int| 0 <= i < string_texts(v@).len() && string_texts(v@)[i] == n@;
                    assert(v@[i]@ == n@);
                }
            }
            c
        },
        None => true,
    };
    let exc = match deny {
        Some(v) => {
            let c = crate::header::contains_name(v, n);
            assert(c == string_texts(v@).contains(n@)) by {
                if c {
                    let i = choose|i: int| 0 <= i < v@.len() && #[trigger] v@[i]@ == n@;
                    assert(string_texts(v@)[i] == n@);
                }
                if string_texts(v@).contains(n@) {
                    let i = choose|i: int| 0 <= i < string_texts(v@).len() && string_texts(v@)[i] == n@;
                    assert(v@[i]@ == n@);
                }
            }
            !c
        },
        None => true,
    };
    inc && exc
}

/// Whether `name` is selected from `from` against `other`: it is one of
/// `from`, it is (or, with `in_other` false, is not) one of `other`, and it
/// passes the filters.
pub open spec fn selected(
    from: Seq<Seq<char>>,
    other: Seq<Seq<char>>,
    in_other: bool,
    allow: Option<Seq<Seq<char>>>,
    deny: Option<Seq<Seq<char>>>,
    name: Seq<char>,
) -> bool {
    &&& from.contains(name)
    &&& other.contains(name) == in_other
    &&& passes_filters(allow, deny, name)
}

/// The names of `from` that are (or, with `in_other` false, are not)
/// among `other` and pass the filters, each once, in ascending order.
pub fn select_names(
    from: &Vec<String>,
    other: &Vec<String>,
    in_other: bool,
    allow: &Option<Vec<String>>,
    deny: &Option<Vec<String>>,
) -> (r: Vec<String>)
    ensures
        strictly_sorted(string_texts(r@)),
        forall|n: Seq<char>|
            #![trigger string_texts(r@).contains(n)]
            string_texts(r@).contains(n) <==> selected(
                string_texts(from@),
                string_texts(other@),
                in_other,
                opt_texts(*allow),
                opt_texts(*deny),
                n,
            ),
{
    let ghost fs = string_texts(from@);
    let ghost os = string_texts(other@);
    let mut out: Vec<String> = Vec::new();
    let mut i: usize = 0;
    while i < from.len()
        invariant
            i <= from@.len(),
            fs == string_texts(from@),
            os == string_texts(other@),
            strictly_sorted(string_texts(out@)),
            forall|n: Seq<char>|
                #![trigger string_texts(out@).contains(n)]
                string_texts(out@).contains(n) <==> selected(
                    fs.take(i as int),
                    os,
                    in_other,
                    opt_texts(*allow),
                    opt_texts(*deny),
                    n,
                ),
        decreases from@.len() - i,
    {
        let name = from[i].as_str();
        let c = crate::header::contains_name(other, name);
        proof {
            if c {
                let k = choose|k: int| 0 <= k < other@.len() && #[trigger] other@[k]@ == name@;
                assert(os[k] == name@);
            }
            if os.contains(name@) {
                let k = choose|k: int| 0 <= k < os.len() && os[k] == name@;
                assert(other@[k]@ == name@);
            }
        }
        let keep = c == in_other && passes_filters_exec(allow, deny, name);
        let ghost before = string_texts(out@);
        if keep {
            insert_name(&mut out, name);
        }
        proof {
            let prev = fs.take(i as int);
            let next = fs.take(i + 1);
            assert(next =~= prev.push(name@));
            assert forall|n: Seq<char>|
                #![trigger string_texts(out@).contains(n)]
                string_texts(out@).contains(n) <==> selected(
                    next,
                    os,
                    in_other,
                    opt_texts(*allow),
                    opt_texts(*deny),
                    n,
                ) by {
                if next.contains(n) && n != name@ {
                    let k = choose|k: int| 0 <= k < next.len() && #[trigger] next[k] == n;
                    assert(prev[k] == n);
                }
                if prev.contains(n) {
                    let k = choose|k: int| 0 <= k < prev.len() && #[trigger] prev[k] == n;
                    assert(next[k] == n);
                }
                assert(next[i as int] == name@);
                assert(before.contains(n) == selected(prev, os, in_other, opt_texts(*allow), opt_texts(*deny), n));
            }
        }
        i += 1;
    }
    assert(fs.take(from@.len() as int) =~= fs);
    out
}

/// Two strictly ascending lists that hold the same names are the same list.
pub proof fn lemma_sorted_unique(s: Seq<Seq<char>>, t: Seq<Seq<char>>)
    requires
        strictly_sorted(s),
        strictly_sorted(t),
        forall|n: Seq<char>| s.contains(n) <==> t.contains(n),
    ensures
        s == t,
    decreases s.len(),
{
    if s.len() == 0 {
        if t.len() > 0 {
            assert(t.contains(t[0]));
        }
        assert(s =~= t);
    } else if t.len() == 0 {
        assert(s.contains(s[0]));
    } else {
        assert(s.contains(s[0]));
        assert(t.contains(t[0]));
        if s[0] != t[0] {
            let j = choose|j: int| 0 <= j < t.len() && t[j] == s[0];
            let i = choose|i: int| 0 <= i < s.len() && s[i] == t[0];
            assert(text_lt(t[0], t[j]));
            assert(text_lt(s[0], s[i]));
            lemma_text_lt_transitive(s[0], t[0], s[0]);
            lemma_text_lt_irreflexive(s[0]);
        }
        let s1 = s.drop_first();
        let t1 = t.drop_first();
        assert forall|i: int, j: int| 0 <= i < j < s1.len() implies text_lt(#[trigger] s1[i], #[trigger] s1[j]) by {
            assert(s1[i] == s[i + 1] && s1[j] == s[j + 1]);
        }
        assert forall|i: int, j: int| 0 <= i < j < t1.len() implies text_lt(#[trigger] t1[i], #[trigger] t1[j]) by {
            assert(t1[i] == t[i + 1] && t1[j] == t[j + 1]);
        }
        assert forall|n: Seq<char>| s1.contains(n) <==> t1.contains(n) by {
            if s1.contains(n) {
                let i = choose|i: int| 0 <= i < s1.len() && s1[i] == n;
                assert(s[i + 1] == n);
                assert(s.contains(n));
                assert(text_lt(s[0], s[i + 1]));
                lemma_text_lt_irreflexive(n);
                let j = choose|j: int| 0 <= j < t.len() && t[j] == n;
                assert(j != 0);
                assert(t1[j - 1] == n);
            }
            if t1.contains(n) {
                let j = choose|j: int| 0 <= j < t1.len() && t1[j] == n;
                assert(t[j + 1] == n);
                assert(t.contains(n));
                assert(text_lt(t[0], t[j + 1]));
                lemma_text_lt_irreflexive(n);
                let i = choose|i: int| 0 <= i < s.len() && s[i] == n;
                assert(i != 0);
                assert(s1[i - 1] == n);
            }
        }
        lemma_sorted_unique(s1, t1);
        assert(s =~= seq![s[0]] + s1);
        assert(t =~= seq![t[0]] + t1);
    }
}

} // verus!
