//! Which tables and columns a database of an earlier version lacks.
use crate::names::{has_name, lists};
use crate::text::{joined, same_text};
use vstd::prelude::*;

verus! {

/// A table that a database has, with its columns.
#[derive(Debug)]
pub struct Table {
    pub name: String,
    pub columns: Vec<String>,
}

pub open spec fn table_exists(tables: Seq<Table>, name: Seq<char>) -> bool {
    exists|i: int| 0 <= i < tables.len() && (#[trigger] tables[i]).name@ == name
}

pub open spec fn holds_column(table: Table, name: Seq<char>, column: Seq<char>) -> bool {
    table.name@ == name && lists(table.columns@, column)
}

pub open spec fn has_column(tables: Seq<Table>, name: Seq<char>, column: Seq<char>) -> bool {
    exists|i: int| 0 <= i < tables.len() && holds_column(#[trigger] tables[i], name, column)
}

/// A table of which a column is missing.
pub open spec fn lacks_column(tables: Seq<Table>, name: Seq<char>, column: Seq<char>) -> bool {
    table_exists(tables, name) && !has_column(tables, name, column)
}

fn is_without_column(tables: &Vec<Table>, name: &str, column: &str) -> (r: bool)
    ensures
        r == lacks_column(tables@, name@, column@),
{
    let mut exists = false;
    let mut i: usize = 0;
    while i < tables.len()
        invariant
            i <= tables.len(),
            exists == table_exists(tables@.take(i as int), name@),
            forall|k: int|
                0 <= k < i ==> !holds_column(#[trigger] tables@[k], name@, column@),
        decreases tables.len() - i,
    {
        let ghost front = tables@.take(i as int);
        let ghost longer = tables@.take(i + 1);
        proof {
            if table_exists(front, name@) {
                let k = choose|k: int|
                    0 <= k < front.len() && (#[trigger] front[k]).name@ == name@;
                assert(longer[k].name@ == name@);
            }
            if table_exists(longer, name@) {
                let k = choose|k: int|
                    0 <= k < longer.len() && (#[trigger] longer[k]).name@ == name@;
                if k < i {
                    assert(front[k].name@ == name@);
                } else {
                    assert(tables@[i as int].name@ == name@);
                }
            }
            assert(longer[i as int] == tables@[i as int]);
        }
        if same_text(tables[i].name.as_str(), name) {
            exists = true;
            if has_name(&tables[i].columns, column) {
                assert(holds_column(tables@[i as int], name@, column@));
                return false;
            }
        }
        i += 1;
    }
    assert(tables@.take(tables@.len() as int) =~= tables@);
    exists
}

/// A column that later versions have, as it is added to an older table.
#[derive(Debug)]
pub struct ColumnDefinition {
    pub table: String,
    pub column: String,
    pub definition: String,
}

#[verifier::ext_equal]
pub struct ColumnView {
    pub table: Seq<char>,
    pub column: Seq<char>,
    pub definition: Seq<char>,
}

impl View for ColumnDefinition {
    type V = ColumnView;

    open spec fn view(&self) -> ColumnView {
        ColumnView {
            table: self.table@,
            column: self.column@,
            definition: self.definition@,
        }
    }
}

pub open spec fn column_views(rows: Seq<ColumnDefinition>) -> Seq<ColumnView> {
    Seq::new(rows.len(), |i: int| rows[i]@)
}

/// The columns that came in later: the table, the column and what it holds. Each can be added
/// to an older table without a loss.
pub open spec fn later_columns() -> Seq<(Seq<char>, Seq<char>, Seq<char>)> {
    seq![
        ("account_usage_data_versions"@, "parse_error_count"@, "INTEGER NOT NULL DEFAULT 0"@),
        ("account_usage_data_versions"@, "last_rebuild_batch_id"@, "TEXT"@),
        ("account_usage_data_versions"@, "source_incomplete_count"@, "INTEGER NOT NULL DEFAULT 0"@),
        ("account_usage_data_versions"@, "source_lag_seconds"@, "INTEGER NOT NULL DEFAULT 0"@),
        ("rollout_parse_errors"@, "account_key"@, "TEXT"@),
        ("rollout_parse_errors"@, "source_id"@, "TEXT"@),
        ("rollout_parse_errors"@, "rebuild_batch_id"@, "TEXT"@),
        ("rollout_file_bindings"@, "last_modified_at"@, "INTEGER"@),
        ("thread_usage_capabilities"@, "retry_count"@, "INTEGER NOT NULL DEFAULT 0"@),
        ("quota_intervals"@, "window_duration_mins"@, "INTEGER NOT NULL DEFAULT 0"@),
        ("quota_intervals"@, "cycle_id"@, "TEXT NOT NULL DEFAULT 'reset:unknown'"@),
        ("quota_intervals"@, "start_sample_id"@, "INTEGER"@),
        ("quota_intervals"@, "end_sample_id"@, "INTEGER"@),
        ("quota_intervals"@, "sample_quality"@, "TEXT NOT NULL DEFAULT 'legacy'"@),
        ("quota_intervals"@, "rejection_reason"@, "TEXT"@),
        ("quota_intervals"@, "observation_gap_ms"@, "INTEGER NOT NULL DEFAULT 0"@),
        ("quota_intervals"@, "gap_token_count"@, "INTEGER NOT NULL DEFAULT 0"@),
        ("rollout_sources"@, "file_identity"@, "TEXT NOT NULL DEFAULT ''"@),
        ("rollout_sources"@, "health_status"@, "TEXT NOT NULL DEFAULT 'unknown'"@),
        ("rollout_sources"@, "last_error"@, "TEXT"@),
        ("rollout_sources"@, "last_error_at"@, "INTEGER"@),
        ("rollout_sources"@, "cursor_state_json"@, "TEXT NOT NULL DEFAULT '{}'"@),
        ("rollout_sources"@, "file_fingerprint"@, "TEXT"@),
        ("rollout_sources"@, "cursor_prefix_fingerprint"@, "TEXT"@),
        ("rollout_sources"@, "generation"@, "INTEGER NOT NULL DEFAULT 0"@),
    ]
}

pub open spec fn definition_of(column: (Seq<char>, Seq<char>, Seq<char>)) -> ColumnView {
    ColumnView { table: column.0, column: column.1, definition: column.2 }
}

/// Of the first `n` later columns, those that are missing.
pub open spec fn missing_of(tables: Seq<Table>, n: int) -> Seq<ColumnView>
    decreases n,
{
    if n <= 0 {
        Seq::empty()
    } else {
        let column = later_columns()[n - 1];
        let before = missing_of(tables, n - 1);
        if lacks_column(tables, column.0, column.1) {
            before.push(definition_of(column))
        } else {
            before
        }
    }
}

fn add_definition(rows: &mut Vec<ColumnDefinition>, table: &str, column: &str, definition: &str)
    ensures
        column_views(final(rows)@) == column_views(old(rows)@).push(
            ColumnView { table: table@, column: column@, definition: definition@ },
        ),
{
    let ghost before = column_views(rows@);
    let row = ColumnDefinition {
        table: table.to_owned(),
        column: column.to_owned(),
        definition: definition.to_owned(),
    };
    let ghost view = row@;
    rows.push(row);
    assert(column_views(rows@) =~= before.push(view));
}

fn all_later_columns() -> (r: Vec<ColumnDefinition>)
    ensures
        column_views(r@) == Seq::new(
            later_columns().len(),
            |i: int| definition_of(later_columns()[i]),
        ),
{
    let mut r: Vec<ColumnDefinition> = Vec::new();
    add_definition(&mut r, "account_usage_data_versions", "parse_error_count", "INTEGER NOT NULL DEFAULT 0");
    add_definition(&mut r, "account_usage_data_versions", "last_rebuild_batch_id", "TEXT");
    add_definition(&mut r, "account_usage_data_versions", "source_incomplete_count", "INTEGER NOT NULL DEFAULT 0");
    add_definition(&mut r, "account_usage_data_versions", "source_lag_seconds", "INTEGER NOT NULL DEFAULT 0");
    add_definition(&mut r, "rollout_parse_errors", "account_key", "TEXT");
    add_definition(&mut r, "rollout_parse_errors", "source_id", "TEXT");
    add_definition(&mut r, "rollout_parse_errors", "rebuild_batch_id", "TEXT");
    add_definition(&mut r, "rollout_file_bindings", "last_modified_at", "INTEGER");
    add_definition(&mut r, "thread_usage_capabilities", "retry_count", "INTEGER NOT NULL DEFAULT 0");
    add_definition(&mut r, "quota_intervals", "window_duration_mins", "INTEGER NOT NULL DEFAULT 0");
    add_definition(&mut r, "quota_intervals", "cycle_id", "TEXT NOT NULL DEFAULT 'reset:unknown'");
    add_definition(&mut r, "quota_intervals", "start_sample_id", "INTEGER");
    add_definition(&mut r, "quota_intervals", "end_sample_id", "INTEGER");
    add_definition(&mut r, "quota_intervals", "sample_quality", "TEXT NOT NULL DEFAULT 'legacy'");
    add_definition(&mut r, "quota_intervals", "rejection_reason", "TEXT");
    add_definition(&mut r, "quota_intervals", "observation_gap_ms", "INTEGER NOT NULL DEFAULT 0");
    add_definition(&mut r, "quota_intervals", "gap_token_count", "INTEGER NOT NULL DEFAULT 0");
    add_definition(&mut r, "rollout_sources", "file_identity", "TEXT NOT NULL DEFAULT ''");
    add_definition(&mut r, "rollout_sources", "health_status", "TEXT NOT NULL DEFAULT 'unknown'");
    add_definition(&mut r, "rollout_sources", "last_error", "TEXT");
    add_definition(&mut r, "rollout_sources", "last_error_at", "INTEGER");
    add_definition(&mut r, "rollout_sources", "cursor_state_json", "TEXT NOT NULL DEFAULT '{}'");
    add_definition(&mut r, "rollout_sources", "file_fingerprint", "TEXT");
    add_definition(&mut r, "rollout_sources", "cursor_prefix_fingerprint", "TEXT");
    add_definition(&mut r, "rollout_sources", "generation", "INTEGER NOT NULL DEFAULT 0");
    assert(column_views(r@) =~= Seq::new(
        later_columns().len(),
        |i: int| definition_of(later_columns()[i]),
    ));
    r
}

/// The columns to add to a database, in the order in which they are added.
pub fn missing_columns(tables: &Vec<Table>) -> (r: Vec<ColumnDefinition>)
    ensures
        column_views(r@) == missing_of(tables@, later_columns().len() as int),
{
    let later = all_later_columns();
    let ghost all = later_columns();
    let mut r: Vec<ColumnDefinition> = Vec::new();
    assert(column_views(r@) =~= missing_of(tables@, 0));
    assert(later@.len() == all.len()) by {
        assert(column_views(later@).len() == later@.len());
    }
    let mut i: usize = 0;
    while i < later.len()
        invariant
            i <= later.len(),
            all == later_columns(),
            later@.len() == all.len(),
            column_views(later@) == Seq::new(all.len(), |k: int| definition_of(all[k])),
            column_views(r@) == missing_of(tables@, i as int),
        decreases later.len() - i,
    {
        let row = &later[i];
        proof {
            assert(column_views(later@)[i as int] == definition_of(all[i as int]));
        }
        if is_without_column(tables, row.table.as_str(), row.column.as_str()) {
            add_definition(
                &mut r,
                row.table.as_str(),
                row.column.as_str(),
                row.definition.as_str(),
            );
        }
        i += 1;
    }
    r
}

/// The statement that adds a column.
pub open spec fn alteration(column: ColumnView) -> Seq<char> {
    "ALTER TABLE "@ + column.table + " ADD COLUMN "@ + column.column + " "@ + column.definition
}

pub fn alter_statement(column: &ColumnDefinition) -> (r: String)
    ensures
        r@ == alteration(column@),
{
    let front = joined("ALTER TABLE ", column.table.as_str());
    let front = joined(front.as_str(), " ADD COLUMN ");
    let front = joined(front.as_str(), column.column.as_str());
    let front = joined(front.as_str(), " ");
    joined(front.as_str(), column.definition.as_str())
}

proof fn lemma_missing_is_listed(tables: Seq<Table>, n: int, i: int)
    requires
        0 <= i < n <= later_columns().len(),
        lacks_column(tables, later_columns()[i].0, later_columns()[i].1),
    ensures
        missing_of(tables, n).contains(definition_of(later_columns()[i])),
    decreases n,
{
    let before = missing_of(tables, n - 1);
    let after = missing_of(tables, n);
    let wanted = definition_of(later_columns()[i]);
    if i == n - 1 {
        assert(after[after.len() - 1] == wanted);
    } else {
        lemma_missing_is_listed(tables, n - 1, i);
        let k = before.index_of(wanted);
        assert(after[k] == wanted);
    }
}

/// No later column is left out: a table that is there has it, or it is among those to add.
pub proof fn lemma_no_column_is_left_out(tables: Seq<Table>, i: int)
    requires
        0 <= i < later_columns().len(),
        table_exists(tables, later_columns()[i].0),
    ensures
        has_column(tables, later_columns()[i].0, later_columns()[i].1) || missing_of(
            tables,
            later_columns().len() as int,
        ).contains(definition_of(later_columns()[i])),
{
    if !has_column(tables, later_columns()[i].0, later_columns()[i].1) {
        lemma_missing_is_listed(tables, later_columns().len() as int, i);
    }
}

proof fn lemma_nothing_missing(tables: Seq<Table>, n: int)
    requires
        0 <= n <= later_columns().len(),
        forall|i: int|
            0 <= i < n ==> !lacks_column(
                tables,
                (#[trigger] later_columns()[i]).0,
                later_columns()[i].1,
            ),
    ensures
        missing_of(tables, n).len() == 0,
    decreases n,
{
    if n > 0 {
        assert(!lacks_column(tables, later_columns()[n - 1].0, later_columns()[n - 1].1));
        lemma_nothing_missing(tables, n - 1);
    }
}

/// A database that has every later column is left as it is.
pub proof fn lemma_complete_database_is_left_alone(tables: Seq<Table>)
    requires
        forall|i: int|
            0 <= i < later_columns().len() ==> !lacks_column(
                tables,
                (#[trigger] later_columns()[i]).0,
                later_columns()[i].1,
            ),
    ensures
        missing_of(tables, later_columns().len() as int).len() == 0,
{
    lemma_nothing_missing(tables, later_columns().len() as int);
}

// ---------------------------------------------------------------------------
// Tables of the first version
// ---------------------------------------------------------------------------

/// A table that the first version kept in another shape.
#[derive(Clone, Copy, Debug, PartialEq, Eq, Structural)]
pub enum OldTable {
    TokenSamples,
    TurnUsage,
    DailyUsage,
    RateLimitSamples,
    Cursors,
}

impl OldTable {
    pub open spec fn table(self) -> Seq<char> {
        match self {
            OldTable::TokenSamples => "turn_token_samples"@,
            OldTable::TurnUsage => "turn_usage"@,
            OldTable::DailyUsage => "account_daily_usage"@,
            OldTable::RateLimitSamples => "rate_limit_samples"@,
            OldTable::Cursors => "rollout_cursors"@,
        }
    }

    /// The column by which the later shape is told.
    pub open spec fn mark(self) -> Seq<char> {
        match self {
            OldTable::TokenSamples => "segment_no"@,
            OldTable::TurnUsage => "started_at"@,
            OldTable::DailyUsage => "official_tokens"@,
            OldTable::RateLimitSamples => "sampled_at"@,
            OldTable::Cursors => "last_modified_at"@,
        }
    }
}

/// Whether a table has its old shape and is to be rebuilt.
pub fn has_old_shape(tables: &Vec<Table>, table: OldTable) -> (r: bool)
    ensures
        r == lacks_column(tables@, table.table(), table.mark()),
{
    match table {
        OldTable::TokenSamples => is_without_column(tables, "turn_token_samples", "segment_no"),
        OldTable::TurnUsage => is_without_column(tables, "turn_usage", "started_at"),
        OldTable::DailyUsage => is_without_column(
            tables,
            "account_daily_usage",
            "official_tokens",
        ),
        OldTable::RateLimitSamples => is_without_column(
            tables,
            "rate_limit_samples",
            "sampled_at",
        ),
        OldTable::Cursors => is_without_column(tables, "rollout_cursors", "last_modified_at"),
    }
}

} // verus!
