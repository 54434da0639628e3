use vstd::prelude::*;
use crate::ids::RecordTable;
use crate::record_kind::RecordKind;

verus! {

/// serde_json's `Value`: the edge metadata as stored, carried through unread.
#[verifier::external_type_specification]
#[verifier::external_body]
pub struct ExJsonValue(serde_json::Value);

/// An analyst's labelled edge as read from the working table.
///
/// Entity edges fill the `entity_id_*` fields, service edges the
/// `service_id_*` fields.
pub struct RawEdgeVisualization {
    pub id: String,
    pub entity_id_1: Option<String>,
    pub entity_id_2: Option<String>,
    pub service_id_1: Option<String>,
    pub service_id_2: Option<String>,
    pub confirmed_status: Option<String>,
    pub details: Option<serde_json::Value>,
}

/// The review label of an edge.
#[derive(Clone, Copy, Debug, PartialEq, Eq, Structural)]
pub enum EdgeStatus {
    PendingReview,
    ConfirmedMatch,
    ConfirmedNonMatch,
    /// Any other label; such an edge does not connect.
    Unrecognized,
}

/// The text of an optional string, empty when absent.
pub open spec fn text_or_empty(s: Option<String>) -> Seq<char> {
    match s {
        Some(t) => t@,
        None => Seq::empty(),
    }
}

/// The label of an edge; an absent label counts as pending review.
pub open spec fn status_of(raw: Option<String>) -> EdgeStatus {
    match raw {
        None => EdgeStatus::PendingReview,
        Some(t) => if t@ == "PENDING_REVIEW"@ {
            EdgeStatus::PendingReview
        } else if t@ == "CONFIRMED_MATCH"@ {
            EdgeStatus::ConfirmedMatch
        } else if t@ == "CONFIRMED_NON_MATCH"@ {
            EdgeStatus::ConfirmedNonMatch
        } else {
            EdgeStatus::Unrecognized
        },
    }
}

impl EdgeStatus {
    /// Pending and confirmed matches keep their records connected.
    pub open spec fn connects_spec(self) -> bool {
        self == EdgeStatus::PendingReview || self == EdgeStatus::ConfirmedMatch
    }

    pub fn connects(&self) -> (r: bool)
        ensures
            r == self.connects_spec(),
    {
        match self {
            EdgeStatus::PendingReview => true,
            EdgeStatus::ConfirmedMatch => true,
            _ => false,
        }
    }

    /// The label's stored text; empty for an unrecognized label.
    pub fn label_text(&self) -> (r: String)
        ensures
            r@ == status_text(*self),
    {
        match self {
            EdgeStatus::PendingReview => "PENDING_REVIEW".to_owned(),
            EdgeStatus::ConfirmedMatch => "CONFIRMED_MATCH".to_owned(),
            EdgeStatus::ConfirmedNonMatch => "CONFIRMED_NON_MATCH".to_owned(),
            EdgeStatus::Unrecognized => String::new(),
        }
    }
}

/// The stored text of a label.
pub open spec fn status_text(s: EdgeStatus) -> Seq<char> {
    match s {
        EdgeStatus::PendingReview => "PENDING_REVIEW"@,
        EdgeStatus::ConfirmedMatch => "CONFIRMED_MATCH"@,
        EdgeStatus::ConfirmedNonMatch => "CONFIRMED_NON_MATCH"@,
        EdgeStatus::Unrecognized => Seq::empty(),
    }
}

/// The label of a stored edge.
pub fn parse_status(raw: &Option<String>) -> (r: EdgeStatus)
    ensures
        r == status_of(*raw),
{
    match raw {
        None => EdgeStatus::PendingReview,
        Some(t) => {
            if *t == "PENDING_REVIEW".to_owned() {
                EdgeStatus::PendingReview
            } else if *t == "CONFIRMED_MATCH".to_owned() {
                EdgeStatus::ConfirmedMatch
            } else if *t == "CONFIRMED_NON_MATCH".to_owned() {
                EdgeStatus::ConfirmedNonMatch
            } else {
                EdgeStatus::Unrecognized
            }
        },
    }
}

fn text_of(s: &Option<String>) -> (r: String)
    ensures
        r@ == text_or_empty(*s),
{
    match s {
        Some(t) => t.clone(),
        None => String::new(),
    }
}

impl RawEdgeVisualization {
    /// The two endpoint identifiers for the kind, empty where absent.
    pub open spec fn endpoints_spec(&self, kind: RecordKind) -> (Seq<char>, Seq<char>) {
        match kind {
            RecordKind::Entity => (text_or_empty(self.entity_id_1), text_or_empty(self.entity_id_2)),
            RecordKind::Service => (text_or_empty(self.service_id_1), text_or_empty(self.service_id_2)),
        }
    }

    pub fn endpoints(&self, kind: RecordKind) -> (r: (String, String))
        ensures
            (r.0@, r.1@) == self.endpoints_spec(kind),
    {
        match kind {
            RecordKind::Entity => (text_of(&self.entity_id_1), text_of(&self.entity_id_2)),
            RecordKind::Service => (text_of(&self.service_id_1), text_of(&self.service_id_2)),
        }
    }
}

/// What becomes of one stored edge.
#[derive(Clone, Copy, Debug, PartialEq, Eq, Structural)]
pub enum EdgeVerdict {
    /// It connects the records at these positions of the table.
    Kept { a: usize, b: usize, status: EdgeStatus },
    /// An endpoint identifier is empty: a data-quality anomaly, skipped.
    EmptyEndpoint,
    /// Its label does not connect (a confirmed non-match, or unknown).
    Severed,
    /// An endpoint is not in the universe of this run.
    OutsideUniverse,
}

/// Whether a stored edge connects two records of the table.
pub open spec fn keeps(table: RecordTable, kind: RecordKind, e: RawEdgeVisualization) -> bool {
    let (x, y) = e.endpoints_spec(kind);
    &&& x.len() > 0
    &&& y.len() > 0
    &&& status_of(e.confirmed_status).connects_spec()
    &&& table.holds(x)
    &&& table.holds(y)
}

/// The verdict on one stored edge. Empty endpoints are reported first,
/// then a label that does not connect, then an endpoint outside the table.
pub fn judge_edge(table: &RecordTable, kind: RecordKind, e: &RawEdgeVisualization) -> (r: EdgeVerdict)
    requires
        table.wf(),
    ensures
        ({
            let (x, y) = e.endpoints_spec(kind);
            match r {
                EdgeVerdict::Kept { a, b, status } => {
                    &&& keeps(*table, kind, *e)
                    &&& a < table.ids@.len() && table.ids@[a as int]@ == x
                    &&& b < table.ids@.len() && table.ids@[b as int]@ == y
                    &&& status == status_of(e.confirmed_status)
                },
                EdgeVerdict::EmptyEndpoint => x.len() == 0 || y.len() == 0,
                EdgeVerdict::Severed => x.len() > 0 && y.len() > 0 && !status_of(
                    e.confirmed_status,
                ).connects_spec(),
                EdgeVerdict::OutsideUniverse => x.len() > 0 && y.len() > 0 && status_of(
                    e.confirmed_status,
                ).connects_spec() && !(table.holds(x) && table.holds(y)),
            }
        }),
{
    let (x, y) = e.endpoints(kind);
    if x.as_str().is_empty() || y.as_str().is_empty() {
        return EdgeVerdict::EmptyEndpoint;
    }
    let status = parse_status(&e.confirmed_status);
    if !status.connects() {
        return EdgeVerdict::Severed;
    }
    match table.position(&x) {
        None => EdgeVerdict::OutsideUniverse,
        Some(a) => match table.position(&y) {
            None => EdgeVerdict::OutsideUniverse,
            Some(b) => {
                proof {
                    reveal(crate::ids::in_texts);
                    assert(table.ids@[a as int]@ == x@);
                    assert(table.ids@[b as int]@ == y@);
                }
                EdgeVerdict::Kept { a, b, status }
            },
        },
    }
}

} // verus!

verus! {

/// A stored edge that survives: the positions of its two records in the
/// table, its place among the stored edges, and its label.
#[derive(Clone, Copy, Debug, PartialEq, Eq, Structural)]
pub struct Link {
    pub edge: usize,
    pub a: usize,
    pub b: usize,
    pub status: EdgeStatus,
}

/// The places of the stored edges that survive, in order.
pub open spec fn kept_indices(
    table: RecordTable,
    kind: RecordKind,
    edges: Seq<RawEdgeVisualization>,
) -> Seq<int>
    decreases edges.len(),
{
    if edges.len() == 0 {
        Seq::empty()
    } else {
        let rest = kept_indices(table, kind, edges.drop_last());
        if keeps(table, kind, edges.last()) {
            rest.push(edges.len() - 1)
        } else {
            rest
        }
    }
}

/// Whether `links` are exactly the surviving stored edges, in order.
pub open spec fn selects(
    table: RecordTable,
    kind: RecordKind,
    edges: Seq<RawEdgeVisualization>,
    links: Seq<Link>,
) -> bool {
    let kept = kept_indices(table, kind, edges);
    &&& links.len() == kept.len()
    &&& forall|i: int|
        0 <= i < links.len() ==> {
            let l = #[trigger] links[i];
            let (x, y) = edges[kept[i]].endpoints_spec(kind);
            &&& l.edge == kept[i]
            &&& l.a < table.ids@.len() && table.ids@[l.a as int]@ == x
            &&& l.b < table.ids@.len() && table.ids@[l.b as int]@ == y
            &&& l.status == status_of(edges[kept[i]].confirmed_status)
        }
}

pub proof fn lemma_kept_indices_bounded(table: RecordTable, kind: RecordKind, edges: Seq<RawEdgeVisualization>)
    ensures
        kept_indices(table, kind, edges).len() <= edges.len(),
        forall|i: int|
            0 <= i < kept_indices(table, kind, edges).len() ==> 0 <= #[trigger] kept_indices(
                table,
                kind,
                edges,
            )[i] < edges.len() && keeps(table, kind, edges[kept_indices(table, kind, edges)[i]]),
    decreases edges.len(),
{
    if edges.len() > 0 {
        let prev = edges.drop_last();
        lemma_kept_indices_bounded(table, kind, prev);
        let kept = kept_indices(table, kind, edges);
        assert forall|i: int| 0 <= i < kept.len() implies 0 <= #[trigger] kept[i] < edges.len() && keeps(
            table,
            kind,
            edges[kept[i]],
        ) by {
            if i < kept_indices(table, kind, prev).len() {
                assert(kept[i] == kept_indices(table, kind, prev)[i]);
                assert(prev[kept[i]] == edges[kept[i]]);
            }
        }
    }
}

/// The surviving stored edges: both endpoints non-empty and in the table,
/// and a label that connects.
pub fn select_links(table: &RecordTable, kind: RecordKind, edges: &Vec<RawEdgeVisualization>) -> (r:
    Vec<Link>)
    requires
        table.wf(),
    ensures
        selects(*table, kind, edges@, r@),
{
    let mut links: Vec<Link> = Vec::new();
    let mut i: usize = 0;
    while i < edges.len()
        invariant
            table.wf(),
            i <= edges@.len(),
            selects(*table, kind, edges@.take(i as int), links@),
        decreases edges@.len() - i,
    {
        let ghost prefix = edges@.take(i as int);
        let ghost next = edges@.take(i + 1);
        proof {
            assert(next.drop_last() =~= prefix);
            assert(next.last() == edges@[i as int]);
            lemma_kept_indices_bounded(*table, kind, prefix);
        }
        match judge_edge(table, kind, &edges[i]) {
            EdgeVerdict::Kept { a, b, status } => {
                let ghost before = links@;
                links.push(Link { edge: i, a, b, status });
                proof {
                    let kept = kept_indices(*table, kind, next);
                    assert(kept == kept_indices(*table, kind, prefix).push(i as int));
                    assert forall|j: int| 0 <= j < links@.len() implies {
                        let l = #[trigger] links@[j];
                        let (x, y) = next[kept[j]].endpoints_spec(kind);
                        &&& l.edge == kept[j]
                        &&& l.a < table.ids@.len() && table.ids@[l.a as int]@ == x
                        &&& l.b < table.ids@.len() && table.ids@[l.b as int]@ == y
                        &&& l.status == status_of(next[kept[j]].confirmed_status)
                    } by {
                        if j < before.len() {
                            assert(links@[j] == before[j]);
                            assert(next[kept[j]] == prefix[kept[j]]);
                        }
                    }
                }
            },
            _ => {
                proof {
                    let kept = kept_indices(*table, kind, next);
                    assert(kept == kept_indices(*table, kind, prefix));
                    assert forall|j: int| 0 <= j < links@.len() implies next[kept[j]] == prefix[kept[j]] by {}
                }
            },
        }
        i += 1;
    }
    proof {
        assert(edges@.take(i as int) =~= edges@);
    }
    links
}

/// The record positions that each link joins.
pub open spec fn link_pairs(links: Seq<Link>) -> Seq<(usize, usize)> {
    links.map_values(|l: Link| (l.a, l.b))
}

pub fn pairs_of(links: &Vec<Link>) -> (r: Vec<(usize, usize)>)
    ensures
        r@ == link_pairs(links@),
{
    let mut r: Vec<(usize, usize)> = Vec::new();
    let mut i: usize = 0;
    while i < links.len()
        invariant
            i <= links@.len(),
            r@ == link_pairs(links@.take(i as int)),
        decreases links@.len() - i,
    {
        r.push((links[i].a, links[i].b));
        assert(link_pairs(links@.take(i + 1)) =~= link_pairs(links@.take(i as int)).push(
            (links@[i as int].a, links@[i as int].b),
        ));
        i += 1;
    }
    assert(links@.take(i as int) =~= links@);
    r
}

} // verus!

verus! {

/// Every selected link joins two records of the table.
pub proof fn lemma_selects_bounded(
    table: RecordTable,
    kind: RecordKind,
    edges: Seq<RawEdgeVisualization>,
    links: Seq<Link>,
)
    requires
        selects(table, kind, edges, links),
    ensures
        crate::graph::links_within(link_pairs(links), table.len()),
        links.len() <= edges.len(),
        forall|i: int|
            0 <= i < links.len() ==> (#[trigger] links[i]).a < table.len() && links[i].b < table.len(),
{
    lemma_kept_indices_bounded(table, kind, edges);
    assert forall|k: int| 0 <= k < link_pairs(links).len() implies (#[trigger] link_pairs(links)[k]).0
        < table.len() && link_pairs(links)[k].1 < table.len() by {
        assert(links[k].a < table.len());
    }
}

} // verus!

verus! {

/// The endpoint texts of the surviving stored edges, in order.
pub open spec fn kept_ends(table: RecordTable, kind: RecordKind, edges: Seq<RawEdgeVisualization>) -> Seq<
    (Seq<char>, Seq<char>),
>
    decreases edges.len(),
{
    if edges.len() == 0 {
        Seq::empty()
    } else {
        let rest = kept_ends(table, kind, edges.drop_last());
        if keeps(table, kind, edges.last()) {
            rest.push(edges.last().endpoints_spec(kind))
        } else {
            rest
        }
    }
}

/// Whether an analyst confirmed that the edge's records differ.
pub open spec fn is_non_match(e: RawEdgeVisualization) -> bool {
    status_of(e.confirmed_status) == EdgeStatus::ConfirmedNonMatch
}

/// The stored edges without the confirmed non-matches.
pub open spec fn without_non_matches(edges: Seq<RawEdgeVisualization>) -> Seq<RawEdgeVisualization>
    decreases edges.len(),
{
    if edges.len() == 0 {
        Seq::empty()
    } else {
        let rest = without_non_matches(edges.drop_last());
        if is_non_match(edges.last()) {
            rest
        } else {
            rest.push(edges.last())
        }
    }
}

pub proof fn lemma_kept_ends(table: RecordTable, kind: RecordKind, edges: Seq<RawEdgeVisualization>)
    ensures
        kept_ends(table, kind, edges).len() == kept_indices(table, kind, edges).len(),
        forall|i: int|
            0 <= i < kept_ends(table, kind, edges).len() ==> #[trigger] kept_ends(table, kind, edges)[i]
                == edges[kept_indices(table, kind, edges)[i]].endpoints_spec(kind),
    decreases edges.len(),
{
    if edges.len() > 0 {
        let prev = edges.drop_last();
        lemma_kept_ends(table, kind, prev);
        lemma_kept_indices_bounded(table, kind, prev);
        let ends = kept_ends(table, kind, edges);
        let kept = kept_indices(table, kind, edges);
        assert forall|i: int| 0 <= i < ends.len() implies #[trigger] ends[i] == edges[kept[i]].endpoints_spec(
            kind,
        ) by {
            if i < kept_ends(table, kind, prev).len() {
                assert(ends[i] == kept_ends(table, kind, prev)[i]);
                assert(kept[i] == kept_indices(table, kind, prev)[i]);
                assert(prev[kept[i]] == edges[kept[i]]);
            }
        }
    }
}

/// Only which texts the table holds matters to the selection.
pub proof fn lemma_kept_ends_holds_only(
    t1: RecordTable,
    t2: RecordTable,
    kind: RecordKind,
    edges: Seq<RawEdgeVisualization>,
)
    requires
        forall|id: Seq<char>| #[trigger] t1.holds(id) == t2.holds(id),
    ensures
        kept_ends(t1, kind, edges) == kept_ends(t2, kind, edges),
    decreases edges.len(),
{
    if edges.len() > 0 {
        lemma_kept_ends_holds_only(t1, t2, kind, edges.drop_last());
        let (x, y) = edges.last().endpoints_spec(kind);
        assert(t1.holds(x) == t2.holds(x));
        assert(t1.holds(y) == t2.holds(y));
    }
}


/// Dropping the confirmed non-matches beforehand changes no surviving edge.
pub proof fn lemma_without_non_matches_ends(
    table: RecordTable,
    kind: RecordKind,
    edges: Seq<RawEdgeVisualization>,
)
    ensures
        kept_ends(table, kind, without_non_matches(edges)) == kept_ends(table, kind, edges),
    decreases edges.len(),
{
    if edges.len() > 0 {
        let prev = edges.drop_last();
        lemma_without_non_matches_ends(table, kind, prev);
        if !is_non_match(edges.last()) {
            let w = without_non_matches(edges);
            assert(w.drop_last() =~= without_non_matches(prev));
            assert(w.last() == edges.last());
        }
    }
}

/// Selections with the same surviving endpoint texts, over tables with the
/// same texts, join the same positions.
pub proof fn lemma_same_ends_same_pairs(
    t1: RecordTable,
    t2: RecordTable,
    kind: RecordKind,
    e1: Seq<RawEdgeVisualization>,
    e2: Seq<RawEdgeVisualization>,
    l1: Seq<Link>,
    l2: Seq<Link>,
)
    requires
        t1.wf(),
        t2.wf(),
        t1.view_ids() == t2.view_ids(),
        selects(t1, kind, e1, l1),
        selects(t2, kind, e2, l2),
        kept_ends(t1, kind, e1) == kept_ends(t2, kind, e2),
    ensures
        link_pairs(l1) == link_pairs(l2),
{
    lemma_kept_ends(t1, kind, e1);
    lemma_kept_ends(t2, kind, e2);
    let k1 = kept_indices(t1, kind, e1);
    let k2 = kept_indices(t2, kind, e2);
    assert(t1.ids@.len() == crate::ids::texts(t1.ids@).len());
    assert(t2.ids@.len() == crate::ids::texts(t2.ids@).len());
    assert forall|i: int| 0 <= i < l1.len() implies (#[trigger] l1[i]).a == l2[i].a && l1[i].b == l2[i].b by {
        assert(kept_ends(t1, kind, e1)[i] == kept_ends(t2, kind, e2)[i]);
        let a1 = l1[i].a as int;
        let a2 = l2[i].a as int;
        let b1 = l1[i].b as int;
        let b2 = l2[i].b as int;
        assert(crate::ids::texts(t1.ids@)[a2] == crate::ids::texts(t2.ids@)[a2]);
        assert(crate::ids::texts(t1.ids@)[b2] == crate::ids::texts(t2.ids@)[b2]);
        crate::ids::lemma_table_distinct(t1, a1, a2);
        crate::ids::lemma_table_distinct(t1, b1, b2);
    }
    assert(link_pairs(l1) =~= link_pairs(l2));
}

} // verus!
