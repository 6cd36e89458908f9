//! The order of paths (character by character, as `str`'s `Ord` compares
//! them) and sets of paths kept as strictly sorted sequences.
use vstd::prelude::*;
use crate::index::{chars_le, str_le};
use crate::text::{str_eq, string_views};

verus! {

/// `a` sorts strictly before `b`.
pub open spec fn chars_lt(a: Seq<char>, b: Seq<char>) -> bool {
    chars_le(a, b) && a != b
}

pub proof fn lemma_le_refl(a: Seq<char>)
    ensures
        chars_le(a, a),
    decreases a.len(),
{
    if a.len() > 0 {
        lemma_le_refl(a.drop_first());
    }
}

pub proof fn lemma_le_total(a: Seq<char>, b: Seq<char>)
    ensures
        chars_le(a, b) || chars_le(b, a),
    decreases a.len(),
{
    if a.len() > 0 && b.len() > 0 && a[0] == b[0] {
        lemma_le_total(a.drop_first(), b.drop_first());
    } else if a.len() > 0 && b.len() > 0 {
        vstd::utf8::char_u32_cast(a[0], a[0] as u32);
        vstd::utf8::char_u32_cast(b[0], b[0] as u32);
    }
}

pub proof fn lemma_le_antisym(a: Seq<char>, b: Seq<char>)
    requires
        chars_le(a, b),
        chars_le(b, a),
    ensures
        a == b,
    decreases a.len(),
{
    if a.len() > 0 && b.len() > 0 {
        lemma_le_antisym(a.drop_first(), b.drop_first());
        assert(a =~= seq![a[0]] + a.drop_first());
        assert(b =~= seq![b[0]] + b.drop_first());
    } else if a.len() == 0 && b.len() == 0 {
        assert(a =~= b);
    }
}

pub proof fn lemma_le_trans(a: Seq<char>, b: Seq<char>, c: Seq<char>)
    requires
        chars_le(a, b),
        chars_le(b, c),
    ensures
        chars_le(a, c),
    decreases a.len(),
{
    if a.len() > 0 && b.len() > 0 && c.len() > 0 && a[0] == b[0] && b[0] == c[0] {
        lemma_le_trans(a.drop_first(), b.drop_first(), c.drop_first());
    }
}

pub proof fn lemma_lt_trans(a: Seq<char>, b: Seq<char>, c: Seq<char>)
    requires
        chars_lt(a, b),
        chars_le(b, c),
    ensures
        chars_lt(a, c),
{
    lemma_le_trans(a, b, c);
    if a == c {
        lemma_le_antisym(a, b);
    }
}

/// Strictly increasing: sorted with no repeats.
pub open spec fn strictly_sorted(s: Seq<Seq<char>>) -> bool {
    forall|i: int, j: int| 0 <= i < j < s.len() ==> chars_lt(#[trigger] s[i], #[trigger] s[j])
}

/// Whether `a` sorts strictly before `b`.
pub fn str_lt(a: &str, b: &str) -> (r: bool)
    ensures
        r == chars_lt(a@, b@),
{
    str_le(a, b) && !str_eq(a, b)
}

/// The sorted union of two strictly sorted sequences.
pub fn union_sorted(a: &Vec<String>, b: &Vec<String>) -> (r: Vec<String>)
    requires
        strictly_sorted(string_views(a@)),
        strictly_sorted(string_views(b@)),
    ensures
        strictly_sorted(string_views(r@)),
        string_views(r@).to_set() == string_views(a@).to_set() + string_views(b@).to_set(),
{
    let ghost av = string_views(a@);
    let ghost bv = string_views(b@);
    let mut out: Vec<String> = Vec::new();
    let mut i: usize = 0;
    let mut j: usize = 0;
    proof {
        assert(av.take(0).to_set() =~= Set::<Seq<char>>::empty());
        assert(bv.take(0).to_set() =~= Set::<Seq<char>>::empty());
        assert(string_views(out@).to_set() =~= Set::<Seq<char>>::empty());
    }
    while i < a.len() || j < b.len()
        invariant
            av == string_views(a@),
            bv == string_views(b@),
            strictly_sorted(av),
            strictly_sorted(bv),
            i <= av.len(),
            j <= bv.len(),
            strictly_sorted(string_views(out@)),
            string_views(out@).to_set() == av.take(i as int).to_set() + bv.take(j as int).to_set(),
            forall|k: int|
                0 <= k < out@.len() ==> (i < av.len() ==> chars_lt(#[trigger] string_views(out@)[k], av[i as int]))
                    && (j < bv.len() ==> chars_lt(string_views(out@)[k], bv[j as int])),
        decreases av.len() + bv.len() - i - j,
    {
        let ghost ov = string_views(out@);
        let ghost i0 = i;
        let ghost j0 = j;
        let take_a: bool;
        let take_b: bool;
        if i < a.len() && j < b.len() {
            if str_eq(a[i].as_str(), b[j].as_str()) {
                take_a = true;
                take_b = true;
            } else if str_lt(a[i].as_str(), b[j].as_str()) {
                take_a = true;
                take_b = false;
            } else {
                take_a = false;
                take_b = true;
                proof {
                    lemma_le_total(av[i as int], bv[j as int]);
                }
            }
        } else if i < a.len() {
            take_a = true;
            take_b = false;
        } else {
            take_a = false;
            take_b = true;
        }
        let ghost x: Seq<char> = if take_a { av[i as int] } else { bv[j as int] };
        if take_a {
            out.push(a[i].clone());
        } else {
            out.push(b[j].clone());
        }
        proof {
            assert(string_views(out@) =~= ov.push(x));
            if take_a {
                assert(av.take(i + 1) =~= av.take(i as int).push(av[i as int]));
            }
            if take_b {
                assert(bv.take(j + 1) =~= bv.take(j as int).push(bv[j as int]));
            }
            if take_a && take_b {
                assert(av[i as int] == bv[j as int]);
            }
        }
        if take_a {
            i += 1;
        }
        if take_b {
            j += 1;
        }
        proof {
            let nv = string_views(out@);
            assert forall|p: int, q: int| 0 <= p < q < nv.len() implies chars_lt(
                #[trigger] nv[p],
                #[trigger] nv[q],
            ) by {
                if q == nv.len() - 1 {
                    assert(nv[p] == ov[p]);
                }
            }
            ov.lemma_push_to_set_commute(x);
            if take_a {
                av.take(i0 as int).lemma_push_to_set_commute(av[i0 as int]);
            }
            if take_b {
                bv.take(j0 as int).lemma_push_to_set_commute(bv[j0 as int]);
            }
            assert(nv.to_set() =~= av.take(i as int).to_set() + bv.take(j as int).to_set());
            assert forall|k: int| 0 <= k < nv.len() implies (i < av.len() ==> chars_lt(
                #[trigger] nv[k],
                av[i as int],
            )) && (j < bv.len() ==> chars_lt(nv[k], bv[j as int])) by {
                if i < av.len() {
                    if k < ov.len() {
                        assert(nv[k] == ov[k]);
                        if take_a {
                            assert(chars_lt(av[i - 1], av[i as int]));
                            lemma_lt_trans(ov[k], av[i - 1], av[i as int]);
                        }
                    } else {
                        if take_a {
                            assert(chars_lt(av[i - 1], av[i as int]));
                        } else {
                            lemma_le_total(x, av[i as int]);
                        }
                    }
                }
                if j < bv.len() {
                    if k < ov.len() {
                        assert(nv[k] == ov[k]);
                        if take_b {
                            assert(chars_lt(bv[j - 1], bv[j as int]));
                            lemma_lt_trans(ov[k], bv[j - 1], bv[j as int]);
                        }
                    } else {
                        if take_b {
                            assert(chars_lt(bv[j - 1], bv[j as int]));
                        } else {
                            lemma_le_total(x, bv[j as int]);
                        }
                    }
                }
            }
        }
    }
    proof {
        assert(av.take(av.len() as int) =~= av);
        assert(bv.take(bv.len() as int) =~= bv);
    }
    out
}

/// `p` is `rel` or lies below it.
pub open spec fn is_under(p: Seq<char>, rel: Seq<char>) -> bool {
    p == rel || crate::text::has_prefix(p, rel.push('/'))
}

/// The members of `ps`, in order, that are `rel` or lie below it.
pub open spec fn under(ps: Seq<Seq<char>>, rel: Seq<char>) -> Seq<Seq<char>>
    decreases ps.len(),
{
    if ps.len() == 0 {
        seq![]
    } else {
        let r = under(ps.drop_last(), rel);
        if is_under(ps.last(), rel) {
            r.push(ps.last())
        } else {
            r
        }
    }
}

proof fn lemma_under_sorted(ps: Seq<Seq<char>>, rel: Seq<char>)
    requires
        strictly_sorted(ps),
    ensures
        strictly_sorted(under(ps, rel)),
        forall|x: Seq<char>| #[trigger] under(ps, rel).contains(x) ==> ps.contains(x) && is_under(x, rel),
        forall|x: Seq<char>| ps.contains(x) && is_under(x, rel) ==> #[trigger] under(ps, rel).contains(x),
    decreases ps.len(),
{
    if ps.len() > 0 {
        let p0 = ps.drop_last();
        assert forall|i: int, j: int| 0 <= i < j < p0.len() implies chars_lt(#[trigger] p0[i], #[trigger] p0[j]) by {
            assert(p0[i] == ps[i] && p0[j] == ps[j]);
        }
        lemma_under_sorted(p0, rel);
        let r = under(p0, rel);
        let l = ps.last();
        assert forall|x: Seq<char>| #[trigger] r.contains(x) implies chars_lt(x, l) by {
            let k = choose|k: int| 0 <= k < p0.len() && p0[k] == x;
            assert(ps[k] == x);
            assert(ps[ps.len() - 1] == l);
        }
        if is_under(l, rel) {
            let rr = r.push(l);
            assert forall|i: int, j: int| 0 <= i < j < rr.len() implies chars_lt(#[trigger] rr[i], #[trigger] rr[j]) by {
                if j == rr.len() - 1 {
                    assert(r.contains(rr[i]));
                } else {
                    assert(rr[i] == r[i] && rr[j] == r[j]);
                }
            }
            assert forall|x: Seq<char>| #[trigger] rr.contains(x) implies ps.contains(x) && is_under(x, rel) by {
                let k = choose|k: int| 0 <= k < rr.len() && rr[k] == x;
                if k < r.len() {
                    assert(r[k] == x);
                    assert(r.contains(x));
                    let m = choose|m: int| 0 <= m < p0.len() && p0[m] == x;
                    assert(ps[m] == x);
                } else {
                    assert(ps[ps.len() - 1] == x);
                }
            }
            assert forall|x: Seq<char>| ps.contains(x) && is_under(x, rel) implies #[trigger] rr.contains(x) by {
                let k = choose|k: int| 0 <= k < ps.len() && ps[k] == x;
                if k < ps.len() - 1 {
                    assert(p0[k] == x);
                    assert(p0.contains(x));
                    assert(r.contains(x));
                    let m = choose|m: int| 0 <= m < r.len() && r[m] == x;
                    assert(rr[m] == x);
                } else {
                    assert(rr[rr.len() - 1] == x);
                }
            }
        } else {
            assert forall|x: Seq<char>| #[trigger] r.contains(x) implies ps.contains(x) && is_under(x, rel) by {
                let m = choose|m: int| 0 <= m < p0.len() && p0[m] == x;
                assert(ps[m] == x);
            }
            assert forall|x: Seq<char>| ps.contains(x) && is_under(x, rel) implies #[trigger] r.contains(x) by {
                let k = choose|k: int| 0 <= k < ps.len() && ps[k] == x;
                if k < ps.len() - 1 {
                    assert(p0[k] == x);
                    assert(p0.contains(x));
                }
            }
        }
    }
}

/// The paths, in order, that are `rel` or lie below it.
pub fn paths_under(paths: &Vec<String>, rel: &str) -> (r: Vec<String>)
    requires
        strictly_sorted(string_views(paths@)),
    ensures
        string_views(r@) == under(string_views(paths@), rel@),
        strictly_sorted(string_views(r@)),
        forall|x: Seq<char>| #[trigger] string_views(r@).contains(x) <==> (string_views(paths@).contains(x) && (x == rel@
            || crate::text::has_prefix(x, rel@.push('/')))),
{
    let ghost pv = string_views(paths@);
    let mut slash: Vec<char> = crate::text::chars_of(rel);
    slash.push('/');
    let below = crate::text::string_of(&slash);
    let mut out: Vec<String> = Vec::new();
    let mut i: usize = 0;
    assert(pv.take(0) =~= seq![]);
    while i < paths.len()
        invariant
            pv == string_views(paths@),
            below@ == rel@.push('/'),
            i <= pv.len(),
            string_views(out@) == under(pv.take(i as int), rel@),
        decreases pv.len() - i,
    {
        proof {
            let t = pv.take(i + 1);
            assert(t.drop_last() =~= pv.take(i as int));
            assert(t.last() == pv[i as int]);
        }
        let p = &paths[i];
        if str_eq(p.as_str(), rel) || crate::text::starts_with(p.as_str(), below.as_str()) {
            let ghost before = string_views(out@);
            out.push(p.clone());
            assert(string_views(out@) =~= before.push(pv[i as int]));
        }
        i += 1;
    }
    assert(pv.take(i as int) =~= pv);
    proof {
        lemma_under_sorted(pv, rel@);
    }
    out
}

} // verus!
