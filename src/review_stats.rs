use vstd::prelude::*;
use crate::edges::{parse_status, status_of, EdgeStatus};

verus! {

/// How many of an analyst's edges carry each label.
pub struct ReviewCounts {
    pub pending_review: i64,
    pub confirmed_match: i64,
    pub confirmed_non_match: i64,
    pub total: i64,
    pub reviewed_count: i64,
}

impl ReviewCounts {
    /// The counts with their total and the number reviewed (confirmed either way).
    pub fn new(pending: i64, confirmed_match: i64, confirmed_non_match: i64) -> (r: ReviewCounts)
        requires
            i64::MIN <= confirmed_match + confirmed_non_match <= i64::MAX,
            i64::MIN <= pending + confirmed_match + confirmed_non_match <= i64::MAX,
        ensures
            r.pending_review == pending,
            r.confirmed_match == confirmed_match,
            r.confirmed_non_match == confirmed_non_match,
            r.reviewed_count == confirmed_match + confirmed_non_match,
            r.total == pending + confirmed_match + confirmed_non_match,
    {
        let reviewed_count = confirmed_match + confirmed_non_match;
        let total = pending + reviewed_count;
        ReviewCounts {
            pending_review: pending,
            confirmed_match,
            confirmed_non_match,
            total,
            reviewed_count,
        }
    }

    /// Whether there are edges and none is left to review.
    pub fn is_complete(&self) -> (r: bool)
        ensures
            r == (self.pending_review == 0 && self.total > 0),
    {
        self.pending_review == 0 && self.total > 0
    }
}

/// The counts by label from rows of (label, count); a later row of a label
/// replaces an earlier one, and other labels are ignored.
pub open spec fn tally_spec(rows: Seq<(String, i64)>) -> (i64, i64, i64)
    decreases rows.len(),
{
    if rows.len() == 0 {
        (0, 0, 0)
    } else {
        let (p, m, n) = tally_spec(rows.drop_last());
        let (label, count) = rows.last();
        match status_of(Some(label)) {
            EdgeStatus::PendingReview => (count, m, n),
            EdgeStatus::ConfirmedMatch => (p, count, n),
            EdgeStatus::ConfirmedNonMatch => (p, m, count),
            EdgeStatus::Unrecognized => (p, m, n),
        }
    }
}

/// The pending, confirmed-match and confirmed-non-match counts of grouped rows.
pub fn tally_review_counts(rows: &Vec<(String, i64)>) -> (r: (i64, i64, i64))
    ensures
        r == tally_spec(rows@),
{
    let mut p: i64 = 0;
    let mut m: i64 = 0;
    let mut n: i64 = 0;
    let mut i: usize = 0;
    while i < rows.len()
        invariant
            i <= rows@.len(),
            (p, m, n) == tally_spec(rows@.take(i as int)),
        decreases rows@.len() - i,
    {
        assert(rows@.take(i + 1).drop_last() =~= rows@.take(i as int));
        let label = Some(rows[i].0.clone());
        let count = rows[i].1;
        match parse_status(&label) {
            EdgeStatus::PendingReview => p = count,
            EdgeStatus::ConfirmedMatch => m = count,
            EdgeStatus::ConfirmedNonMatch => n = count,
            EdgeStatus::Unrecognized => {},
        }
        i += 1;
    }
    assert(rows@.take(i as int) =~= rows@);
    (p, m, n)
}

} // verus!
