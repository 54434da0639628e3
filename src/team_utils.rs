use vstd::prelude::*;
use crate::ids::texts;
use crate::text::{decimal_text, push_decimal};

verus! {

/// A team, with the source datasets its exports may include.
pub struct TeamInfo {
    pub id: String,
    pub name: String,
    pub display_name: String,
    pub whitelisted_datasets: Vec<String>,
    pub is_active: bool,
}

/// A user of a team.
pub struct UserInfo {
    pub id: String,
    pub username: String,
    pub email: Option<String>,
    pub user_opinion_prefix: Option<String>,
    pub team_id: Option<String>,
    pub is_active: bool,
}

/// An opinion: one named set of an analyst's review decisions.
pub struct OpinionInfo {
    pub id: String,
    pub name: String,
    pub user_id: String,
    pub owner_username: String,
    pub other_users: Vec<String>,
    pub disconnect_dependent_services: bool,
}

/// The numbered parameters `$start, $start+1, ...`, `count` of them, joined by `, `.
pub open spec fn placeholders_text(start: nat, count: nat) -> Seq<char>
    decreases count,
{
    if count == 0 {
        Seq::empty()
    } else if count == 1 {
        "$"@ + decimal_text(start)
    } else {
        placeholders_text(start, (count - 1) as nat) + ", "@ + "$"@ + decimal_text(
            (start + count - 1) as nat,
        )
    }
}

/// The condition that admits rows whose column is one of `count` parameters
/// from `start` on; with no parameter, every row.
pub open spec fn filter_clause_text(alias: Seq<char>, column: Seq<char>, start: nat, count: nat) -> Seq<
    char,
> {
    if count == 0 {
        "1=1"@
    } else {
        alias + "."@ + column + " = ANY(ARRAY["@ + placeholders_text(start, count) + "])"@
    }
}

/// The condition that restricts a query to the whitelisted datasets, and the
/// parameters it numbers from `param_start_index`. An empty whitelist admits
/// every dataset.
pub fn create_dataset_filter_clause(
    table_alias: &str,
    column_name: &str,
    whitelisted_datasets: &[String],
    param_start_index: usize,
) -> (r: (String, Vec<String>))
    requires
        param_start_index + whitelisted_datasets@.len() <= usize::MAX,
    ensures
        r.0@ == filter_clause_text(
            table_alias@,
            column_name@,
            param_start_index as nat,
            whitelisted_datasets@.len(),
        ),
        texts(r.1@) == texts(whitelisted_datasets@),
{
    let n = whitelisted_datasets.len();
    if n == 0 {
        return ("1=1".to_owned(), Vec::new());
    }
    let mut clause = table_alias.to_owned();
    clause.append(".");
    clause.append(column_name);
    clause.append(" = ANY(ARRAY[");
    let ghost head = clause@;
    let mut params: Vec<String> = Vec::new();
    let mut i: usize = 0;
    while i < n
        invariant
            n == whitelisted_datasets@.len(),
            param_start_index + n <= usize::MAX,
            i <= n,
            clause@ == head + placeholders_text(param_start_index as nat, i as nat),
            params@.len() == i,
            texts(params@) == texts(whitelisted_datasets@.take(i as int)),
        decreases n - i,
    {
        if i > 0 {
            clause.append(", ");
        }
        clause.append("$");
        push_decimal(&mut clause, param_start_index + i);
        proof {
            if i == 0 {
                assert(placeholders_text(param_start_index as nat, 1) =~= "$"@ + decimal_text(
                    param_start_index as nat,
                ));
            }
            assert(clause@ =~= head + placeholders_text(param_start_index as nat, (i + 1) as nat));
        }
        let ghost before = params@;
        params.push(whitelisted_datasets[i].clone());
        proof {
            let w = whitelisted_datasets@.take(i + 1);
            assert forall|j: int| 0 <= j < i + 1 implies #[trigger] texts(params@)[j] == texts(w)[j] by {
                if j < i {
                    assert(texts(before)[j] == texts(whitelisted_datasets@.take(i as int))[j]);
                    assert(params@[j] == before[j]);
                }
            }
            assert(texts(params@) =~= texts(w));
        }
        i += 1;
    }
    clause.append("])");
    assert(whitelisted_datasets@.take(n as int) =~= whitelisted_datasets@);
    (clause, params)
}

} // verus!
