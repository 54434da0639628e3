use vstd::prelude::*;

verus! {

/// One row of the organization export.
pub struct OrganizationExportRow {
    pub contributor: Option<String>,
    pub contributor_id: Option<String>,
    pub entity_id: String,
    pub name: Option<String>,
    pub cluster_confirmed_status: String,
    pub cluster: Option<String>,
    pub has_duplicates: bool,
}

/// One row of the service export.
pub struct ServiceExportRow {
    pub contributor: Option<String>,
    pub contributor_id: Option<String>,
    pub service_id: String,
    pub organization_name: Option<String>,
    pub service_name: Option<String>,
    pub location_name: Option<String>,
    pub full_address: Option<String>,
    pub cluster_confirmed_status: String,
    /// Comma-separated taxonomy terms.
    pub taxonomy_terms: Option<String>,
    pub cluster: Option<String>,
    pub has_duplicates: bool,
}

} // verus!

verus! {

/// The texts joined, with `, ` between neighbours.
pub open spec fn join_text(parts: Seq<Seq<char>>) -> Seq<char>
    decreases parts.len(),
{
    if parts.len() == 0 {
        Seq::empty()
    } else if parts.len() == 1 {
        parts[0]
    } else {
        join_text(parts.drop_last()) + ", "@ + parts.last()
    }
}

/// A service's taxonomy terms as exported: in ascending order, joined by
/// `, `; none when the service has no term.
pub fn join_taxonomy_terms(terms: &Vec<String>) -> (r: Option<String>)
    ensures
        terms@.len() == 0 <==> r is None,
        r matches Some(s) ==> exists|v: Seq<String>|
            {
                &&& v.len() == terms@.len()
                &&& crate::ids::non_descending(crate::ids::texts(v))
                &&& forall|t: Seq<char>| #[trigger] crate::ids::in_texts(v, t) == crate::ids::in_texts(terms@, t)
                &&& s@ == join_text(crate::ids::texts(v))
            },
{
    if terms.len() == 0 {
        return None;
    }
    let mut sorted = terms.clone();
    assert(sorted@ =~= terms@);
    crate::ids::sort_ids(&mut sorted);
    let mut s = String::new();
    let mut i: usize = 0;
    while i < sorted.len()
        invariant
            i <= sorted@.len(),
            s@ == join_text(crate::ids::texts(sorted@.take(i as int))),
        decreases sorted@.len() - i,
    {
        let ghost prev = crate::ids::texts(sorted@.take(i as int));
        let ghost next = crate::ids::texts(sorted@.take(i + 1));
        assert(next.drop_last() =~= prev);
        assert(next.last() == sorted@[i as int]@);
        if i > 0 {
            s.append(", ");
        }
        s.append(sorted[i].as_str());
        assert(s@ =~= join_text(next));
        i += 1;
    }
    assert(sorted@.take(i as int) =~= sorted@);
    Some(s)
}

} // verus!

verus! {

/// The places, in order, among the first `upto` keys, of the keys with text `t`.
pub open spec fn places_of(keys: Seq<String>, t: Seq<char>, upto: int) -> Seq<usize>
    decreases upto,
{
    if upto <= 0 {
        Seq::empty()
    } else if keys[upto - 1]@ == t {
        places_of(keys, t, upto - 1).push((upto - 1) as usize)
    } else {
        places_of(keys, t, upto - 1)
    }
}

/// Groups the places of equal keys: the distinct keys in ascending order,
/// and for each, the places where it occurs, in order.
pub fn group_places(keys: &Vec<String>) -> (r: (crate::ids::RecordTable, Vec<Vec<usize>>))
    ensures
        r.0.wf(),
        forall|t: Seq<char>| #[trigger] r.0.holds(t) <==> crate::ids::in_texts(keys@, t),
        r.1@.len() == r.0.ids@.len(),
        forall|g: int|
            0 <= g < r.1@.len() ==> (#[trigger] r.1@[g])@ == places_of(
                keys@,
                r.0.ids@[g]@,
                keys@.len() as int,
            ),
{
    let table = crate::ids::RecordTable::from_universe(keys);
    let n = table.ids.len();
    let mut groups: Vec<Vec<usize>> = Vec::new();
    let mut g: usize = 0;
    while g < n
        invariant
            n == table.ids@.len(),
            g <= n,
            groups@.len() == g,
            forall|h: int| 0 <= h < g ==> (#[trigger] groups@[h])@ == Seq::<usize>::empty(),
        decreases n - g,
    {
        groups.push(Vec::new());
        g += 1;
    }
    let mut i: usize = 0;
    while i < keys.len()
        invariant
            table.wf(),
            forall|t: Seq<char>| #[trigger] table.holds(t) <==> crate::ids::in_texts(keys@, t),
            n == table.ids@.len(),
            i <= keys@.len(),
            groups@.len() == n,
            forall|h: int|
                0 <= h < n ==> (#[trigger] groups@[h])@ == places_of(keys@, table.ids@[h]@, i as int),
        decreases keys@.len() - i,
    {
        proof {
            reveal(crate::ids::in_texts);
            assert(crate::ids::in_texts(keys@, keys@[i as int]@));
            assert(table.holds(keys@[i as int]@));
        }
        let p = match table.position(&keys[i]) {
            Some(p) => p,
            None => {
                assert(false);
                0
            },
        };
        let ghost before = groups@;
        groups[p].push(i);
        proof {
            assert forall|h: int| 0 <= h < n implies (#[trigger] groups@[h])@ == places_of(
                keys@,
                table.ids@[h]@,
                i + 1,
            ) by {
                if h != p {
                    assert(groups@[h] == before[h]);
                    if table.ids@[h]@ == keys@[i as int]@ {
                        crate::ids::lemma_table_distinct(table, h, p as int);
                    }
                }
            }
        }
        i += 1;
    }
    (table, groups)
}

} // verus!

verus! {

/// The text of an optional string.
pub open spec fn opt_text(o: Option<String>) -> Option<Seq<char>> {
    match o {
        Some(s) => Some(s@),
        None => None,
    }
}

/// The order of `Option<String>`: none first, then by text.
pub open spec fn opt_lt(a: Option<Seq<char>>, b: Option<Seq<char>>) -> bool {
    match (a, b) {
        (None, Some(_)) => true,
        (Some(x), Some(y)) => crate::ids::id_lt(x, y),
        _ => false,
    }
}

/// A sort key of an export row: whether it lacks a cluster, the cluster, the
/// name, and the row's place.
pub type RowKey = (bool, Option<String>, Option<String>, usize);

/// The lexicographic order of row keys, the order of such tuples in Rust.
pub open spec fn row_key_lt(a: RowKey, b: RowKey) -> bool {
    ||| !a.0 && b.0
    ||| a.0 == b.0 && opt_lt(opt_text(a.1), opt_text(b.1))
    ||| a.0 == b.0 && opt_text(a.1) == opt_text(b.1) && opt_lt(opt_text(a.2), opt_text(b.2))
    ||| a.0 == b.0 && opt_text(a.1) == opt_text(b.1) && opt_text(a.2) == opt_text(b.2) && a.3 < b.3
}

/// Whether `x` is one of the keys.
#[verifier::opaque]
pub open spec fn has_key(v: Seq<RowKey>, x: RowKey) -> bool {
    exists|k: int| 0 <= k < v.len() && #[trigger] v[k] == x
}

/// Relies on `slice::sort` of tuples, which orders them lexicographically,
/// `Option` with none first and `String` by code point: the same keys, in
/// ascending order.
#[verifier::external_body]
fn sort_row_keys(v: &mut Vec<RowKey>)
    ensures
        final(v)@.len() == old(v)@.len(),
        forall|x: RowKey| #[trigger] has_key(final(v)@, x) == has_key(old(v)@, x),
        forall|a: int, b: int|
            0 <= a < b < final(v)@.len() ==> !row_key_lt(#[trigger] final(v)@[b], #[trigger] final(v)@[a]),
{
    v.sort()
}

/// The key of export row `i`, from its cluster and name.
pub open spec fn export_key(clusters: Seq<Option<String>>, names: Seq<Option<String>>, i: int) -> RowKey {
    (clusters[i] is None, clusters[i], names[i], i as usize)
}

/// The order in which to list export rows: rows with a cluster first, by
/// cluster and then name; rows without one after, by name; ties by place.
pub fn export_order(clusters: &Vec<Option<String>>, names: &Vec<Option<String>>) -> (r: Vec<usize>)
    requires
        clusters@.len() == names@.len(),
    ensures
        r@.len() == clusters@.len(),
        forall|i: usize| i < clusters@.len() ==> #[trigger] r@.contains(i),
        forall|a: int, b: int|
            0 <= a < b < r@.len() ==> r@[a] < clusters@.len() && !row_key_lt(
                export_key(clusters@, names@, #[trigger] r@[b] as int),
                export_key(clusters@, names@, #[trigger] r@[a] as int),
            ),
{
    let n = clusters.len();
    let mut keys: Vec<RowKey> = Vec::new();
    let mut i: usize = 0;
    while i < n
        invariant
            n == clusters@.len(),
            n == names@.len(),
            i <= n,
            keys@.len() == i,
            forall|k: int| 0 <= k < i ==> #[trigger] keys@[k] == export_key(clusters@, names@, k),
        decreases n - i,
    {
        let c = clusters[i].clone();
        let m = names[i].clone();
        keys.push((c.is_none(), c, m, i));
        proof {
            assert(keys@[i as int] == export_key(clusters@, names@, i as int));
        }
        i += 1;
    }

    let ghost unsorted = keys@;
    sort_row_keys(&mut keys);
    proof {
        reveal(has_key);
        assert forall|k: int| 0 <= k < n implies (#[trigger] keys@[k]).3 < n && keys@[k] == export_key(
            clusters@,
            names@,
            keys@[k].3 as int,
        ) by {
            assert(has_key(keys@, keys@[k]));
            let k2 = choose|k2: int| 0 <= k2 < unsorted.len() && #[trigger] unsorted[k2] == keys@[k];
            assert(unsorted[k2] == export_key(clusters@, names@, k2));
        }
        assert forall|i: usize| i < n implies #[trigger] has_key(keys@, export_key(clusters@, names@, i as int)) by {
            assert(has_key(unsorted, unsorted[i as int]));
        }
    }
    let mut r: Vec<usize> = Vec::new();
    let mut j: usize = 0;
    while j < n
        invariant
            n == clusters@.len(),
            n == names@.len(),
            keys@.len() == n,
            j <= n,
            r@.len() == j,
            forall|k: int| 0 <= k < j ==> #[trigger] r@[k] == keys@[k].3,
            forall|i: usize| i < n ==> #[trigger] has_key(keys@, export_key(clusters@, names@, i as int)),
            forall|k: int|
                0 <= k < n ==> (#[trigger] keys@[k]).3 < n && keys@[k] == export_key(
                    clusters@,
                    names@,
                    keys@[k].3 as int,
                ),
        decreases n - j,
    {
        r.push(keys[j].3);
        j += 1;
    }
    proof {
        reveal(has_key);
        assert forall|i: usize| i < n implies #[trigger] r@.contains(i) by {
            assert(has_key(keys@, export_key(clusters@, names@, i as int)));
            let k = choose|k: int| 0 <= k < keys@.len() && #[trigger] keys@[k] == export_key(clusters@, names@, i as int);
            assert(r@[k] == i);
        }
        assert forall|a: int, b: int| 0 <= a < b < r@.len() implies r@[a] < n && !row_key_lt(
            export_key(clusters@, names@, #[trigger] r@[b] as int),
            export_key(clusters@, names@, #[trigger] r@[a] as int),
        ) by {
            assert(!row_key_lt(keys@[b], keys@[a]));
        }
    }
    r
}

} // verus!
