use vstd::prelude::*;

verus! {

/// Strict lexicographic order of two texts by code point, the order of `str`.
#[verifier::opaque]
pub open spec fn id_lt(a: Seq<char>, b: Seq<char>) -> bool
    decreases a.len(),
{
    if a.len() == 0 {
        b.len() > 0
    } else if b.len() == 0 {
        false
    } else if a[0] != b[0] {
        (a[0] as int) < (b[0] as int)
    } else {
        id_lt(a.drop_first(), b.drop_first())
    }
}

/// The comparison of two texts in the order `id_lt`.
pub open spec fn id_cmp(a: Seq<char>, b: Seq<char>) -> std::cmp::Ordering {
    if id_lt(a, b) {
        std::cmp::Ordering::Less
    } else if a == b {
        std::cmp::Ordering::Equal
    } else {
        std::cmp::Ordering::Greater
    }
}

pub proof fn lemma_id_lt_irreflexive(a: Seq<char>)
    ensures
        !id_lt(a, a),
    decreases a.len(),
{
    reveal(id_lt);
    if a.len() > 0 {
        lemma_id_lt_irreflexive(a.drop_first());
    }
}

pub proof fn lemma_id_lt_asymmetric(a: Seq<char>, b: Seq<char>)
    ensures
        !(id_lt(a, b) && id_lt(b, a)),
    decreases a.len(),
{
    reveal(id_lt);
    if a.len() > 0 && b.len() > 0 && a[0] == b[0] {
        lemma_id_lt_asymmetric(a.drop_first(), b.drop_first());
    }
}

pub proof fn lemma_id_lt_total(a: Seq<char>, b: Seq<char>)
    ensures
        id_lt(a, b) || id_lt(b, a) || a == b,
    decreases a.len(),
{
    reveal(id_lt);
    if a.len() > 0 && b.len() > 0 {
        if a[0] == b[0] {
            lemma_id_lt_total(a.drop_first(), b.drop_first());
            if a.drop_first() == b.drop_first() {
                assert(a =~= seq![a[0]] + a.drop_first());
                assert(b =~= seq![b[0]] + b.drop_first());
            }
        } else {
            assert((a[0] as int) != (b[0] as int));
        }
    } else if a.len() == 0 && b.len() == 0 {
        assert(a =~= b);
    }
}

pub proof fn lemma_id_lt_transitive(a: Seq<char>, b: Seq<char>, c: Seq<char>)
    requires
        id_lt(a, b),
        id_lt(b, c),
    ensures
        id_lt(a, c),
    decreases a.len(),
{
    reveal(id_lt);
    if a.len() > 0 && b.len() > 0 && c.len() > 0 {
        if a[0] == b[0] && b[0] == c[0] {
            lemma_id_lt_transitive(a.drop_first(), b.drop_first(), c.drop_first());
        }
    }
}

/// Relies on `Ord::cmp` of `String`, which orders texts lexicographically by code point.
#[verifier::external_body]
fn compare_ids(a: &String, b: &String) -> (r: std::cmp::Ordering)
    ensures
        r == id_cmp(a@, b@),
{
    a.cmp(b)
}

/// Whether one of the strings has the text `t`.
#[verifier::opaque]
pub open spec fn in_texts(v: Seq<String>, t: Seq<char>) -> bool {
    exists|j: int| 0 <= j < v.len() && #[trigger] v[j]@ == t
}

/// Relies on `slice::sort` of `String`s: the same texts, in ascending order.
#[verifier::external_body]
pub(crate) fn sort_ids(v: &mut Vec<String>)
    ensures
        final(v)@.len() == old(v)@.len(),
        non_descending(texts(final(v)@)),
        forall|t: Seq<char>| #[trigger] in_texts(final(v)@, t) == in_texts(old(v)@, t),
{
    v.sort()
}

/// Each text precedes every later one.
#[verifier::opaque]
pub open spec fn ascending(s: Seq<Seq<char>>) -> bool {
    forall|i: int, j: int| 0 <= i < j < s.len() ==> id_lt(#[trigger] s[i], #[trigger] s[j])
}

/// No text precedes an earlier one.
#[verifier::opaque]
pub open spec fn non_descending(s: Seq<Seq<char>>) -> bool {
    forall|i: int, j: int| 0 <= i < j < s.len() ==> !id_lt(#[trigger] s[j], #[trigger] s[i])
}

proof fn lemma_ascending_push(s: Seq<Seq<char>>, x: Seq<char>)
    requires
        ascending(s),
        s.len() > 0 ==> id_lt(s.last(), x),
    ensures
        ascending(s.push(x)),
{
    reveal(ascending);
    let t = s.push(x);
    assert forall|i: int, j: int| 0 <= i < j < t.len() implies id_lt(#[trigger] t[i], #[trigger] t[j]) by {
        if j == s.len() && i < s.len() - 1 {
            lemma_id_lt_transitive(s[i], s.last(), x);
        }
    }
}

/// The record identifiers of a universe, each once, in ascending order.
///
/// A record is known by its position in this table.
pub struct RecordTable {
    pub ids: Vec<String>,
}

/// The texts of a sequence of strings.
pub open spec fn texts(v: Seq<String>) -> Seq<Seq<char>> {
    v.map_values(|s: String| s@)
}

impl RecordTable {
    pub open spec fn view_ids(&self) -> Seq<Seq<char>> {
        texts(self.ids@)
    }

    /// Strictly ascending, hence free of repeats.
    pub open spec fn wf(&self) -> bool {
        ascending(texts(self.ids@))
    }

    pub open spec fn len(&self) -> nat {
        self.ids@.len()
    }

    /// Whether the text names a record of the table.
    pub open spec fn holds(&self, id: Seq<char>) -> bool {
        in_texts(self.ids@, id)
    }

    /// The table of the distinct identifiers in `universe`.
    pub fn from_universe(universe: &Vec<String>) -> (t: RecordTable)
        ensures
            t.wf(),
            t.ids@.len() <= universe@.len(),
            forall|id: Seq<char>| #[trigger] t.holds(id) <==> in_texts(universe@, id),
    {
        let mut sorted: Vec<String> = universe.clone();
        assert(sorted@ == universe@) by {
            assert(sorted@ =~= universe@);
        }
        sort_ids(&mut sorted);
        let mut ids: Vec<String> = Vec::new();
        let mut k: usize = 0;
        proof {
            reveal(ascending);
            reveal(in_texts);
        }
        while k < sorted.len()
            invariant
                0 <= k <= sorted@.len(),
                sorted@.len() == universe@.len(),
                ids@.len() <= k,
                ascending(texts(ids@)),
                non_descending(texts(sorted@)),
                ids@.len() > 0 ==> k > 0 && ids@.last()@ == sorted@[k - 1]@,
                k > 0 ==> ids@.len() > 0,
                forall|i: int| 0 <= i < ids@.len() ==> in_texts(sorted@.take(k as int), #[trigger] ids@[i]@),
                forall|j: int| 0 <= j < k ==> in_texts(ids@, #[trigger] sorted@[j]@),
            decreases sorted@.len() - k,
        {
            let keep = if ids.len() == 0 {
                true
            } else {
                let last = ids.len() - 1;
                !(ids[last] == sorted[k])
            };
            let ghost before = ids@;
            if keep {
                proof {
                    if ids@.len() > 0 {
                        let p = ids@.len() - 1;
                        lemma_id_lt_total(ids@[p]@, sorted@[k as int]@);
                        reveal(non_descending);
                        assert(texts(sorted@)[k - 1] == sorted@[k - 1]@);
                        assert(texts(sorted@)[k as int] == sorted@[k as int]@);
                        assert(!id_lt(sorted@[k as int]@, sorted@[k - 1]@));
                        assert(texts(ids@).last() == ids@[p]@);
                    }
                    lemma_ascending_push(texts(ids@), sorted@[k as int]@);
                }
                ids.push(sorted[k].clone());
                proof {
                    assert(texts(ids@) =~= texts(before).push(sorted@[k as int]@));
                }
            }
            proof {
                reveal(in_texts);
                let next = sorted@.take(k + 1);
                assert forall|i: int| 0 <= i < ids@.len() implies in_texts(next, #[trigger] ids@[i]@) by {
                    if i < before.len() {
                        assert(ids@[i] == before[i]);
                        let j = choose|j: int| 0 <= j < k && #[trigger] sorted@.take(k as int)[j]@ == before[i]@;
                        assert(next[j] == sorted@.take(k as int)[j]);
                    } else {
                        assert(next[k as int] == sorted@[k as int]);
                    }
                }
                assert forall|j: int| 0 <= j < k + 1 implies in_texts(ids@, #[trigger] sorted@[j]@) by {
                    if j < k {
                        let i = choose|i: int| 0 <= i < before.len() && #[trigger] before[i]@ == sorted@[j]@;
                        assert(ids@[i] == before[i]);
                    } else if keep {
                        assert(ids@[before.len() as int]@ == sorted@[j]@);
                    } else {
                        assert(ids@[before.len() - 1]@ == sorted@[j]@);
                    }
                }
            }
            k += 1;
        }
        let t = RecordTable { ids };
        proof {
            assert(sorted@.take(k as int) =~= sorted@);
            reveal(in_texts);
            assert forall|id: Seq<char>| #[trigger] t.holds(id) implies in_texts(sorted@, id) by {
                let i = choose|i: int| 0 <= i < t.ids@.len() && #[trigger] t.ids@[i]@ == id;
                assert(in_texts(sorted@, t.ids@[i]@));
            }
            assert forall|id: Seq<char>| in_texts(sorted@, id) implies #[trigger] t.holds(id) by {
                let j = choose|j: int| 0 <= j < sorted@.len() && #[trigger] sorted@[j]@ == id;
                assert(in_texts(t.ids@, sorted@[j]@));
            }
        }
        t
    }

    /// The position of `id` in the table, if it names a record.
    pub fn position(&self, id: &String) -> (r: Option<usize>)
        requires
            self.wf(),
        ensures
            match r {
                Some(i) => i < self.ids@.len() && self.ids@[i as int]@ == id@,
                None => !self.holds(id@),
            },
    {
        reveal(in_texts);
        proof {
            reveal(ascending);
            assert forall|i: int, j: int| 0 <= i < j < self.ids@.len() implies id_lt(
                #[trigger] self.ids@[i]@,
                #[trigger] self.ids@[j]@,
            ) by {
                assert(texts(self.ids@)[i] == self.ids@[i]@);
                assert(texts(self.ids@)[j] == self.ids@[j]@);
            }
        }
        let mut lo: usize = 0;
        let mut hi: usize = self.ids.len();
        while lo < hi
            invariant
                forall|i: int, j: int|
                    0 <= i < j < self.ids@.len() ==> id_lt(#[trigger] self.ids@[i]@, #[trigger] self.ids@[j]@),
                0 <= lo <= hi <= self.ids@.len(),
                forall|i: int| 0 <= i < lo ==> id_lt(#[trigger] self.ids@[i]@, id@),
                forall|i: int| hi <= i < self.ids@.len() ==> id_lt(id@, #[trigger] self.ids@[i]@),
            decreases hi - lo,
        {
            let mid = lo + (hi - lo) / 2;
            let c = compare_ids(&self.ids[mid], id);
            match c {
                std::cmp::Ordering::Equal => {
                    proof {
                        lemma_id_lt_total(self.ids@[mid as int]@, id@);
                    }
                    return Some(mid);
                }
                std::cmp::Ordering::Less => {
                    assert forall|i: int| 0 <= i < mid + 1 implies id_lt(#[trigger] self.ids@[i]@, id@) by {
                        if i < mid {
                            lemma_id_lt_transitive(self.ids@[i]@, self.ids@[mid as int]@, id@);
                        }
                    }
                    lo = mid + 1;
                }
                std::cmp::Ordering::Greater => {
                    proof {
                        lemma_id_lt_total(self.ids@[mid as int]@, id@);
                    }
                    assert forall|i: int| mid <= i < self.ids@.len() implies id_lt(id@, #[trigger] self.ids@[i]@) by {
                        if i > mid {
                            lemma_id_lt_transitive(id@, self.ids@[mid as int]@, self.ids@[i]@);
                        }
                    }
                    hi = mid;
                }
            }
        }
        assert forall|i: int| 0 <= i < self.ids@.len() implies #[trigger] self.ids@[i]@ != id@ by {
            lemma_id_lt_irreflexive(id@);
        }
        None
    }
}

} // verus!

verus! {

/// Distinct positions of a table hold distinct texts.
pub proof fn lemma_table_distinct(t: RecordTable, i: int, j: int)
    requires
        t.wf(),
        0 <= i < t.ids@.len(),
        0 <= j < t.ids@.len(),
        t.ids@[i]@ == t.ids@[j]@,
    ensures
        i == j,
{
    reveal(ascending);
    assert(texts(t.ids@)[i] == t.ids@[i]@);
    assert(texts(t.ids@)[j] == t.ids@[j]@);
    lemma_id_lt_irreflexive(t.ids@[i]@);
}

proof fn lemma_ascending_first_least(s: Seq<Seq<char>>, k: int)
    requires
        ascending(s),
        0 < k < s.len(),
    ensures
        id_lt(s[0], s[k]),
{
    reveal(ascending);
}

proof fn lemma_ascending_equal(a: Seq<Seq<char>>, b: Seq<Seq<char>>)
    requires
        ascending(a),
        ascending(b),
        forall|t: Seq<char>| a.contains(t) <==> b.contains(t),
    ensures
        a == b,
    decreases a.len(),
{
    if a.len() == 0 {
        if b.len() > 0 {
            assert(b.contains(b[0]));
        }
        assert(a =~= b);
    } else if b.len() == 0 {
        assert(a.contains(a[0]));
    } else {
        assert(a.contains(a[0]));
        assert(b.contains(b[0]));
        let ka = choose|k: int| 0 <= k < a.len() && a[k] == b[0];
        let kb = choose|k: int| 0 <= k < b.len() && b[k] == a[0];
        if ka > 0 && kb > 0 {
            lemma_ascending_first_least(a, ka);
            lemma_ascending_first_least(b, kb);
            lemma_id_lt_asymmetric(a[0], b[0]);
        }
        if ka == 0 {
            assert(a[0] == b[0]);
        } else {
            assert(kb == 0);
            assert(a[0] == b[0]);
        }
        let a2 = a.drop_first();
        let b2 = b.drop_first();
        assert(ascending(a2)) by {
            reveal(ascending);
            assert forall|i: int, j: int| 0 <= i < j < a2.len() implies id_lt(#[trigger] a2[i], #[trigger] a2[j]) by {
                assert(a2[i] == a[i + 1] && a2[j] == a[j + 1]);
            }
        }
        assert(ascending(b2)) by {
            reveal(ascending);
            assert forall|i: int, j: int| 0 <= i < j < b2.len() implies id_lt(#[trigger] b2[i], #[trigger] b2[j]) by {
                assert(b2[i] == b[i + 1] && b2[j] == b[j + 1]);
            }
        }
        assert forall|t: Seq<char>| a2.contains(t) implies b2.contains(t) by {
            let i = choose|i: int| 0 <= i < a2.len() && a2[i] == t;
            lemma_ascending_first_least(a, i + 1);
            assert(b.contains(t));
            let j = choose|j: int| 0 <= j < b.len() && b[j] == t;
            if j == 0 {
                lemma_id_lt_irreflexive(t);
            }
            assert(b2[j - 1] == t);
        }
        assert forall|t: Seq<char>| b2.contains(t) implies a2.contains(t) by {
            let i = choose|i: int| 0 <= i < b2.len() && b2[i] == t;
            lemma_ascending_first_least(b, i + 1);
            assert(a.contains(t));
            let j = choose|j: int| 0 <= j < a.len() && a[j] == t;
            if j == 0 {
                lemma_id_lt_irreflexive(t);
            }
            assert(a2[j - 1] == t);
        }
        lemma_ascending_equal(a2, b2);
        assert(a =~= seq![a[0]] + a2);
        assert(b =~= seq![b[0]] + b2);
    }
}

/// Two tables of the same records hold the same texts at the same positions.
pub proof fn lemma_tables_agree(t1: RecordTable, t2: RecordTable)
    requires
        t1.wf(),
        t2.wf(),
        forall|id: Seq<char>| #[trigger] t1.holds(id) == t2.holds(id),
    ensures
        t1.view_ids() == t2.view_ids(),
{
    reveal(in_texts);
    let a = texts(t1.ids@);
    let b = texts(t2.ids@);
    assert forall|t: Seq<char>| a.contains(t) implies b.contains(t) by {
        let i = choose|i: int| 0 <= i < a.len() && a[i] == t;
        assert(t1.ids@[i]@ == t);
        assert(t1.holds(t));
        let j = choose|j: int| 0 <= j < t2.ids@.len() && #[trigger] t2.ids@[j]@ == t;
        assert(b[j] == t);
    }
    assert forall|t: Seq<char>| b.contains(t) implies a.contains(t) by {
        let i = choose|i: int| 0 <= i < b.len() && b[i] == t;
        assert(t2.ids@[i]@ == t);
        assert(t2.holds(t));
        assert(t1.holds(t));
        let j = choose|j: int| 0 <= j < t1.ids@.len() && #[trigger] t1.ids@[j]@ == t;
        assert(a[j] == t);
    }
    lemma_ascending_equal(a, b);
}

} // verus!
