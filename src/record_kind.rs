use vstd::prelude::*;

verus! {

/// The two kinds of record that are reclustered, each with its own tables.
#[derive(Clone, Copy, Debug, PartialEq, Eq, Structural)]
pub enum RecordKind {
    Entity,
    Service,
}

/// The three tables of one snapshot.
#[derive(Clone, Copy, Debug, PartialEq, Eq, Structural)]
pub enum SnapshotTable {
    /// Pairwise group memberships.
    Group,
    /// One row per cluster.
    Cluster,
    /// One row per surviving edge.
    EdgeVisualization,
}

pub open spec fn kind_text(k: RecordKind) -> Seq<char> {
    match k {
        RecordKind::Entity => "entity"@,
        RecordKind::Service => "service"@,
    }
}

/// The name of a table of a kind, without analyst and suffix.
pub open spec fn table_stem(k: RecordKind, t: SnapshotTable) -> Seq<char> {
    kind_text(k) + match t {
        SnapshotTable::Group => "_group"@,
        SnapshotTable::Cluster => "_group_cluster"@,
        SnapshotTable::EdgeVisualization => "_edge_visualization"@,
    }
}

/// The name of an analyst's working table.
pub open spec fn source_table_text(analyst: Seq<char>, k: RecordKind, t: SnapshotTable) -> Seq<char> {
    analyst + "_"@ + table_stem(k, t)
}

/// The name of a snapshot table of one run.
pub open spec fn export_table_text(
    analyst: Seq<char>,
    k: RecordKind,
    t: SnapshotTable,
    suffix: Seq<char>,
) -> Seq<char> {
    source_table_text(analyst, k, t) + "_export_"@ + suffix
}

impl RecordKind {
    /// The kind's lower-case name.
    pub fn label(&self) -> (r: String)
        ensures
            r@ == kind_text(*self),
    {
        match self {
            RecordKind::Entity => "entity".to_owned(),
            RecordKind::Service => "service".to_owned(),
        }
    }

    /// The kind's upper-case name, used in cluster names.
    pub fn upper_label(&self) -> (r: String)
        ensures
            r@ == match *self {
                RecordKind::Entity => "ENTITY"@,
                RecordKind::Service => "SERVICE"@,
            },
    {
        match self {
            RecordKind::Entity => "ENTITY".to_owned(),
            RecordKind::Service => "SERVICE".to_owned(),
        }
    }

    /// The kind that a lower-case name stands for.
    pub fn parse(name: &str) -> (r: Option<RecordKind>)
        ensures
            r == Some(RecordKind::Entity) <==> name@ == "entity"@,
            r == Some(RecordKind::Service) <==> name@ == "service"@,
    {
        let given = name.to_owned();
        let entity = "entity".to_owned();
        let service = "service".to_owned();
        proof {
            reveal_strlit("entity");
            reveal_strlit("service");
            assert("entity"@ != "service"@) by {
                assert("entity"@[0] != "service"@[0]);
            }
        }
        if given == entity {
            Some(RecordKind::Entity)
        } else if given == service {
            Some(RecordKind::Service)
        } else {
            None
        }
    }

    /// The column that holds the cluster of an edge row.
    pub fn cluster_column(&self) -> (r: String)
        ensures
            r@ == match *self {
                RecordKind::Entity => "cluster_id"@,
                RecordKind::Service => "service_group_cluster_id"@,
            },
    {
        match self {
            RecordKind::Entity => "cluster_id".to_owned(),
            RecordKind::Service => "service_group_cluster_id".to_owned(),
        }
    }

    /// The column that holds the group count of a cluster row.
    pub fn group_count_column(&self) -> (r: String)
        ensures
            r@ == match *self {
                RecordKind::Entity => "group_count"@,
                RecordKind::Service => "service_group_count"@,
            },
    {
        match self {
            RecordKind::Entity => "group_count".to_owned(),
            RecordKind::Service => "service_group_count".to_owned(),
        }
    }
}

impl SnapshotTable {
    /// Whether rows of this table pair a record with itself, which the
    /// working table's check constraints forbid.
    pub fn holds_self_pairs(&self) -> (r: bool)
        ensures
            r == (*self == SnapshotTable::Group),
    {
        match self {
            SnapshotTable::Group => true,
            _ => false,
        }
    }
}

/// The name of a table of a kind, without analyst and suffix.
pub fn table_stem_name(kind: RecordKind, table: SnapshotTable) -> (r: String)
    ensures
        r@ == table_stem(kind, table),
{
    let mut s = kind.label();
    match table {
        SnapshotTable::Group => s.append("_group"),
        SnapshotTable::Cluster => s.append("_group_cluster"),
        SnapshotTable::EdgeVisualization => s.append("_edge_visualization"),
    }
    s
}

/// The name of the analyst's working table of a kind.
pub fn source_table_name(analyst: &str, kind: RecordKind, table: SnapshotTable) -> (r: String)
    ensures
        r@ == source_table_text(analyst@, kind, table),
{
    let mut s = analyst.to_owned();
    s.append("_");
    let stem = table_stem_name(kind, table);
    s.append(stem.as_str());
    proof {
        assert(s@ =~= source_table_text(analyst@, kind, table));
    }
    s
}

/// The name of a snapshot table of the run with the given suffix.
pub fn export_table_name(analyst: &str, kind: RecordKind, table: SnapshotTable, suffix: &str) -> (r:
    String)
    ensures
        r@ == export_table_text(analyst@, kind, table, suffix@),
{
    let mut s = source_table_name(analyst, kind, table);
    s.append("_export_");
    s.append(suffix);
    s
}

/// The key under which an analyst's opinion is stored: prefix, `_`, opinion.
pub fn analyst_key(user_prefix: &str, opinion_name: &str) -> (r: String)
    ensures
        r@ == user_prefix@ + "_"@ + opinion_name@,
{
    let mut s = user_prefix.to_owned();
    s.append("_");
    s.append(opinion_name);
    s
}

} // verus!
