//! Comparison of a produced edge listing against an expected solution, by
//! set equality over lines: a line is extraneous when produced but not
//! expected, missing when expected but not produced, and the run matches
//! exactly when the two line sets are equal. Repetition of a line on
//! either side carries no meaning.

use vstd::prelude::*;

verus! {

/// The character sequences of a sequence of lines.
pub open spec fn views(v: Seq<String>) -> Seq<Seq<char>> {
    v.map_values(|s: String| s@)
}

/// What a comparison found: both lists empty means the produced line set
/// equals the expected one.
pub struct SolutionReport {
    pub extraneous: Vec<String>,
    pub missing: Vec<String>,
}

impl SolutionReport {
    /// The comparison succeeded: nothing extraneous, nothing missing.
    /// Together with the contract of [`verify`], this holds exactly when
    /// the produced and expected line sets are equal
    /// ([`lemma_empty_report_means_sets_equal`]).
    pub fn ok(&self) -> (r: bool)
        ensures
            r == (self.extraneous@.len() == 0 && self.missing@.len() == 0),
    {
        self.extraneous.len() == 0 && self.missing.len() == 0
    }
}

/// First line of `remaining` equal to `x`, if any.
fn find_line(remaining: &Vec<String>, x: &String) -> (r: Option<usize>)
    ensures
        r matches Some(i) ==> i < remaining@.len() && remaining@[i as int]@ == x@,
        r is None ==> !views(remaining@).to_set().contains(x@),
{
    let mut i: usize = 0;
    while i < remaining.len()
        invariant
            i <= remaining@.len(),
            forall|j: int| 0 <= j < i ==> remaining@[j]@ != x@,
        decreases remaining@.len() - i,
    {
        if x.eq(&remaining[i]) {
            return Some(i);
        }
        i = i + 1;
    }
    proof {
        if views(remaining@).to_set().contains(x@) {
            let j = choose|j: int|
                0 <= j < views(remaining@).len() && views(remaining@)[j] == x@;
            assert(remaining@[j]@ == x@);
        }
    }
    None
}

proof fn lemma_to_set_push(s: Seq<Seq<char>>, x: Seq<char>)
    ensures
        s.push(x).to_set() == s.to_set().insert(x),
{
    assert forall|y: Seq<char>| s.push(x).to_set().contains(y) implies s.to_set().insert(
        x,
    ).contains(y) by {
        let j = choose|j: int| 0 <= j < s.push(x).len() && s.push(x)[j] == y;
        if j < s.len() {
            assert(s[j] == y);
        }
    }
    assert forall|y: Seq<char>| s.to_set().insert(x).contains(y) implies s.push(
        x,
    ).to_set().contains(y) by {
        if y == x {
            assert(s.push(x)[s.len() as int] == y);
        } else {
            let j = choose|j: int| 0 <= j < s.len() && s[j] == y;
            assert(s.push(x)[j] == y);
        }
    }
    assert(s.push(x).to_set() =~= s.to_set().insert(x));
}

/// The lines of `a` whose text occurs in no line of `b`, each once, in
/// first-occurrence order.
fn set_diff_lines(a: &Vec<String>, b: &Vec<String>) -> (r: Vec<String>)
    ensures
        views(r@).to_set() == views(a@).to_set().difference(views(b@).to_set()),
        forall|i: int, j: int| 0 <= i < j < r@.len() ==> r@[i]@ != r@[j]@,
{
    let ghost bset = views(b@).to_set();
    let mut r: Vec<String> = Vec::new();
    let mut i: usize = 0;
    proof {
        assert(views(a@.take(0)).to_set() =~= Set::<Seq<char>>::empty());
        assert(views(r@).to_set() =~= views(a@.take(0)).to_set().difference(bset));
    }
    while i < a.len()
        invariant
            i <= a@.len(),
            bset == views(b@).to_set(),
            forall|x: int, y: int| 0 <= x < y < r@.len() ==> r@[x]@ != r@[y]@,
            views(r@).to_set() == views(a@.take(i as int)).to_set().difference(bset),
        decreases a@.len() - i,
    {
        let ghost pre = r@;
        let ghost x = a@[i as int]@;
        proof {
            assert(views(a@.take(i as int + 1)) =~= views(a@.take(i as int)).push(x));
            lemma_to_set_push(views(a@.take(i as int)), x);
        }
        match find_line(b, &a[i]) {
            None => {
                if find_line(&r, &a[i]).is_none() {
                    r.push(a[i].clone());
                    proof {
                        assert(views(r@) =~= views(pre).push(x));
                        lemma_to_set_push(views(pre), x);
                        assert forall|s: int, t: int|
                            0 <= s < t < r@.len() implies r@[s]@ != r@[t]@ by {
                            if t == r@.len() - 1 {
                                if r@[s]@ == x {
                                    assert(views(pre)[s] == x);
                                    assert(views(pre).to_set().contains(x));
                                }
                            }
                        }
                        assert(views(r@).to_set() =~= views(
                            a@.take(i as int + 1),
                        ).to_set().difference(bset));
                    }
                } else {
                    proof {
                        let j = choose|j: int| 0 <= j < pre.len() && pre[j]@ == x;
                        assert(views(pre)[j] == x);
                        assert(views(pre).to_set().contains(x));
                        assert(views(r@).to_set() =~= views(
                            a@.take(i as int + 1),
                        ).to_set().difference(bset));
                    }
                }
            },
            Some(jj) => {
                proof {
                    assert(b@[jj as int]@ == x);
                    assert(views(b@)[jj as int] == x);
                    assert(bset.contains(x));
                    assert(views(r@).to_set() =~= views(a@.take(i as int + 1)).to_set().difference(
                        bset,
                    ));
                }
            },
        }
        i = i + 1;
    }
    proof {
        assert(a@.take(a@.len() as int) =~= a@);
    }
    r
}

/// Compare produced lines against an expected solution, as sets:
/// `extraneous` holds each produced line that is not expected, `missing`
/// each expected line that was not produced — each such line once,
/// whatever its repetition on either side. A fully matching run reports
/// both lists empty; mismatches are diagnostic, nothing fails.
pub fn verify(produced: &Vec<String>, expected: &Vec<String>) -> (r: SolutionReport)
    ensures
        views(r.extraneous@).to_set() == views(produced@).to_set().difference(
            views(expected@).to_set(),
        ),
        views(r.missing@).to_set() == views(expected@).to_set().difference(
            views(produced@).to_set(),
        ),
        forall|i: int, j: int|
            0 <= i < j < r.extraneous@.len() ==> r.extraneous@[i]@ != r.extraneous@[j]@,
        forall|i: int, j: int| 0 <= i < j < r.missing@.len() ==> r.missing@[i]@ != r.missing@[j]@,
{
    let extraneous = set_diff_lines(produced, expected);
    let missing = set_diff_lines(expected, produced);
    SolutionReport { extraneous, missing }
}

/// An empty report means set equality and conversely: a report meeting
/// [`verify`]'s contract has both lists empty exactly when the produced
/// and expected line sets are equal.
pub proof fn lemma_empty_report_means_sets_equal(
    r: SolutionReport,
    ps: Set<Seq<char>>,
    es: Set<Seq<char>>,
)
    requires
        views(r.extraneous@).to_set() == ps.difference(es),
        views(r.missing@).to_set() == es.difference(ps),
    ensures
        (r.extraneous@.len() == 0 && r.missing@.len() == 0) <==> ps == es,
{
    if r.extraneous@.len() == 0 && r.missing@.len() == 0 {
        assert(views(r.extraneous@).to_set() =~= Set::<Seq<char>>::empty());
        assert(views(r.missing@).to_set() =~= Set::<Seq<char>>::empty());
        assert forall|z: Seq<char>| ps.contains(z) implies es.contains(z) by {
            if !es.contains(z) {
                assert(ps.difference(es).contains(z));
            }
        }
        assert forall|z: Seq<char>| es.contains(z) implies ps.contains(z) by {
            if !ps.contains(z) {
                assert(es.difference(ps).contains(z));
            }
        }
        assert(ps =~= es);
    }
    if ps == es {
        if r.extraneous@.len() > 0 {
            assert(views(r.extraneous@).to_set().contains(views(r.extraneous@)[0]));
            assert(false);
        }
        if r.missing@.len() > 0 {
            assert(views(r.missing@).to_set().contains(views(r.missing@)[0]));
            assert(false);
        }
    }
}

/// Against a solution that differs from the produced set by one extra and
/// one missing line, a report meeting [`verify`]'s contract holds exactly
/// one extraneous line — the one wrongly produced — and exactly one
/// missing line — the one wrongly expected.
pub proof fn lemma_single_mismatch_report(
    r: SolutionReport,
    ps: Set<Seq<char>>,
    es: Set<Seq<char>>,
    x: Seq<char>,
    y: Seq<char>,
)
    requires
        views(r.extraneous@).to_set() == ps.difference(es),
        views(r.missing@).to_set() == es.difference(ps),
        forall|i: int, j: int|
            0 <= i < j < r.extraneous@.len() ==> r.extraneous@[i]@ != r.extraneous@[j]@,
        forall|i: int, j: int| 0 <= i < j < r.missing@.len() ==> r.missing@[i]@ != r.missing@[j]@,
        ps.contains(x),
        !ps.contains(y),
        es == ps.remove(x).insert(y),
    ensures
        r.extraneous@.len() == 1 && r.extraneous@[0]@ == x,
        r.missing@.len() == 1 && r.missing@[0]@ == y,
{
    assert(ps.difference(es) =~= Set::<Seq<char>>::empty().insert(x));
    assert(es.difference(ps) =~= Set::<Seq<char>>::empty().insert(y));
    lemma_distinct_singleton(r.extraneous@, x);
    lemma_distinct_singleton(r.missing@, y);
}

/// A duplicate-free list of lines whose set is a singleton is that one
/// line.
proof fn lemma_distinct_singleton(v: Seq<String>, x: Seq<char>)
    requires
        views(v).to_set() == Set::<Seq<char>>::empty().insert(x),
        forall|i: int, j: int| 0 <= i < j < v.len() ==> v[i]@ != v[j]@,
    ensures
        v.len() == 1 && v[0]@ == x,
{
    assert(views(v).to_set().contains(x));
    let k = choose|k: int| 0 <= k < views(v).len() && views(v)[k] == x;
    if v.len() > 1 {
        assert(views(v).to_set().contains(views(v)[0]));
        assert(views(v).to_set().contains(views(v)[1]));
        assert(v[0]@ == x && v[1]@ == x);
        assert(false);
    }
}

} // verus!
