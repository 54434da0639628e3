use vstd::prelude::*;

verus! {

/// How a group membership came about.
#[derive(Clone, Copy, Debug, PartialEq, Eq, Structural)]
pub enum MembershipMethod {
    /// A record alone in its cluster, paired with itself.
    Isolated,
    /// Two distinct records of one cluster.
    Connected,
}

impl MembershipMethod {
    /// The method's stored text.
    pub fn text(&self) -> (r: String)
        ensures
            r@ == method_text(*self),
    {
        match self {
            MembershipMethod::Isolated => "USER_REVIEW_ISOLATED".to_owned(),
            MembershipMethod::Connected => "USER_REVIEW_CONNECTED".to_owned(),
        }
    }
}

pub open spec fn method_text(m: MembershipMethod) -> Seq<char> {
    match m {
        MembershipMethod::Isolated => "USER_REVIEW_ISOLATED"@,
        MembershipMethod::Connected => "USER_REVIEW_CONNECTED"@,
    }
}

/// Two records, by position, placed together in cluster `cluster`.
#[derive(Clone, Copy, Debug, PartialEq, Eq, Structural)]
pub struct Membership {
    pub first: usize,
    pub second: usize,
    pub cluster: usize,
    pub method: MembershipMethod,
}

/// The pairs of member `i` with each later member.
pub open spec fn pair_row(m: Seq<usize>, i: int, c: usize) -> Seq<Membership> {
    Seq::new(
        (m.len() - i - 1) as nat,
        |j: int|
            Membership {
                first: m[i],
                second: m[i + 1 + j],
                cluster: c,
                method: MembershipMethod::Connected,
            },
    )
}

/// The pairs whose first member is among the first `i` members.
pub open spec fn pairs_upto(m: Seq<usize>, i: int, c: usize) -> Seq<Membership>
    decreases i,
{
    if i <= 0 {
        Seq::empty()
    } else {
        pairs_upto(m, i - 1, c) + pair_row(m, i - 1, c)
    }
}

/// The memberships of one cluster: one self-pair for a single member,
/// every unordered pair of members otherwise.
#[verifier::opaque]
pub open spec fn cluster_memberships(m: Seq<usize>, c: usize) -> Seq<Membership> {
    if m.len() == 1 {
        seq![Membership { first: m[0], second: m[0], cluster: c, method: MembershipMethod::Isolated }]
    } else {
        pairs_upto(m, m.len() as int, c)
    }
}

/// The memberships of the first `k` clusters, cluster by cluster.
pub open spec fn memberships_upto(clusters: Seq<Seq<usize>>, k: int) -> Seq<Membership>
    decreases k,
{
    if k <= 0 {
        Seq::empty()
    } else {
        memberships_upto(clusters, k - 1) + cluster_memberships(clusters[k - 1], (k - 1) as usize)
    }
}

/// The memberships of all clusters.
pub open spec fn all_memberships(clusters: Seq<Seq<usize>>) -> Seq<Membership> {
    memberships_upto(clusters, clusters.len() as int)
}

/// The member lists of a list of clusters.
pub open spec fn member_seqs(clusters: Seq<Vec<usize>>) -> Seq<Seq<usize>> {
    clusters.map_values(|v: Vec<usize>| v@)
}

fn push_cluster_memberships(out: &mut Vec<Membership>, m: &Vec<usize>, c: usize)
    ensures
        final(out)@ == old(out)@ + cluster_memberships(m@, c),
{
    reveal(cluster_memberships);
    if m.len() == 1 {
        out.push(Membership { first: m[0], second: m[0], cluster: c, method: MembershipMethod::Isolated });
        assert(final(out)@ =~= old(out)@ + cluster_memberships(m@, c));
        return ;
    }
    let ghost start = out@;
    let n = m.len();
    let mut i: usize = 0;
    while i < n
        invariant
            n == m@.len(),
            n != 1,
            i <= n,
            out@ == start + pairs_upto(m@, i as int, c),
        decreases n - i,
    {
        let mut j: usize = i + 1;
        while j < n
            invariant
                n == m@.len(),
                i < n,
                i + 1 <= j <= n,
                out@ == start + pairs_upto(m@, i as int, c) + pair_row(m@, i as int, c).take(
                    j - i - 1,
                ),
            decreases n - j,
        {
            out.push(Membership { first: m[i], second: m[j], cluster: c, method: MembershipMethod::Connected });
            assert(pair_row(m@, i as int, c).take(j - i) =~= pair_row(m@, i as int, c).take(
                j - i - 1,
            ).push(pair_row(m@, i as int, c)[j - i - 1]));
            assert(out@ =~= start + pairs_upto(m@, i as int, c) + pair_row(m@, i as int, c).take(
                j - i,
            ));
            j += 1;
        }
        assert(pair_row(m@, i as int, c).take(j - i - 1) =~= pair_row(m@, i as int, c));
        assert(out@ =~= start + pairs_upto(m@, i + 1, c));
        i += 1;
    }
}

/// The group memberships of every cluster, cluster by cluster.
pub fn build_memberships(clusters: &Vec<Vec<usize>>) -> (r: Vec<Membership>)
    ensures
        r@ == all_memberships(member_seqs(clusters@)),
{
    let mut out: Vec<Membership> = Vec::new();
    let mut k: usize = 0;
    while k < clusters.len()
        invariant
            k <= clusters@.len(),
            out@ == memberships_upto(member_seqs(clusters@), k as int),
        decreases clusters@.len() - k,
    {
        let ghost before = out@;
        push_cluster_memberships(&mut out, &clusters[k], k);
        assert(member_seqs(clusters@)[k as int] == clusters@[k as int]@);
        assert(out@ =~= memberships_upto(member_seqs(clusters@), k + 1));
        k += 1;
    }
    out
}

} // verus!

verus! {

proof fn lemma_pairs_upto_bounded(m: Seq<usize>, i: int, c: usize, n: nat)
    requires
        0 <= i <= m.len(),
        forall|k: int| 0 <= k < m.len() ==> (#[trigger] m[k]) < n,
    ensures
        forall|j: int|
            0 <= j < pairs_upto(m, i, c).len() ==> {
                &&& (#[trigger] pairs_upto(m, i, c)[j]).first < n
                &&& pairs_upto(m, i, c)[j].second < n
                &&& pairs_upto(m, i, c)[j].cluster == c
            },
    decreases i,
{
    if i > 0 {
        lemma_pairs_upto_bounded(m, i - 1, c, n);
        let p = pairs_upto(m, i - 1, c);
        let row = pair_row(m, i - 1, c);
        assert forall|j: int| 0 <= j < pairs_upto(m, i, c).len() implies {
            &&& (#[trigger] pairs_upto(m, i, c)[j]).first < n
            &&& pairs_upto(m, i, c)[j].second < n
            &&& pairs_upto(m, i, c)[j].cluster == c
        } by {
            if j < p.len() {
                assert(pairs_upto(m, i, c)[j] == p[j]);
            } else {
                assert(pairs_upto(m, i, c)[j] == row[j - p.len()]);
                assert(m[i - 1 + 1 + (j - p.len())] < n);
            }
        }
    }
}

/// Every membership pairs two of the first `n` records within one of the clusters.
pub proof fn lemma_memberships_bounded(clusters: Seq<Seq<usize>>, k: int, n: nat)
    requires
        0 <= k <= clusters.len(),
        forall|c: int, i: int|
            0 <= c < clusters.len() && 0 <= i < clusters[c].len() ==> #[trigger] clusters[c][i] < n,
    ensures
        forall|j: int|
            0 <= j < memberships_upto(clusters, k).len() ==> {
                &&& (#[trigger] memberships_upto(clusters, k)[j]).first < n
                &&& memberships_upto(clusters, k)[j].second < n
                &&& memberships_upto(clusters, k)[j].cluster < k
            },
    decreases k,
{
    if k > 0 {
        lemma_memberships_bounded(clusters, k - 1, n);
        let m = clusters[k - 1];
        let c = (k - 1) as usize;
        assert forall|i: int| 0 <= i < m.len() implies (#[trigger] m[i]) < n by {
            assert(clusters[k - 1][i] < n);
        }
        lemma_pairs_upto_bounded(m, m.len() as int, c, n);
        let p = memberships_upto(clusters, k - 1);
        let q = cluster_memberships(m, c);
        reveal(cluster_memberships);
        assert forall|j: int| 0 <= j < memberships_upto(clusters, k).len() implies {
            &&& (#[trigger] memberships_upto(clusters, k)[j]).first < n
            &&& memberships_upto(clusters, k)[j].second < n
            &&& memberships_upto(clusters, k)[j].cluster < k
        } by {
            if j < p.len() {
                assert(memberships_upto(clusters, k)[j] == p[j]);
            } else {
                assert(memberships_upto(clusters, k)[j] == q[j - p.len()]);
            }
        }
    }
}

} // verus!
