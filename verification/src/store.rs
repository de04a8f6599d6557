//! The decisions of the project library kept in SQLite: when the table
//! needs its file-count column, how a project is saved, and how a stored
//! row is summarised.

use vstd::prelude::*;

use crate::text::same_text;

verus! {

/// A saved project as the library lists it.
pub struct ProjectSummary {
    pub id: i64,
    pub name: String,
    pub updated_at: String,
    pub file_count: usize,
}

/// The summary of a stored row; a negative stored file count reads as 0
/// (and the count is cast to `usize`).
pub fn project_summary(id: i64, name: String, updated_at: String, file_count: i64) -> (s: ProjectSummary)
    ensures
        s.id == id,
        s.name == name,
        s.updated_at == updated_at,
        s.file_count == (if file_count < 0 {
            0
        } else {
            file_count as usize
        }),
{
    let count: usize = if file_count < 0 {
        0
    } else {
        file_count as usize
    };
    ProjectSummary { id, name, updated_at, file_count: count }
}

/// Whether the table lacks the `file_count` column, given the names of
/// its columns, and so must be migrated.
pub fn needs_file_count_column(columns: &Vec<String>) -> (r: bool)
    ensures
        r == !(exists|k: int| 0 <= k < columns.len() && #[trigger] columns@[k]@ == "file_count"@),
{
    let mut k: usize = 0;
    while k < columns.len()
        invariant
            k <= columns.len(),
            forall|j: int| 0 <= j < k ==> #[trigger] columns@[j]@ != "file_count"@,
        decreases columns.len() - k,
    {
        if same_text(columns[k].as_str(), "file_count") {
            return false;
        }
        k = k + 1;
    }
    true
}

/// How a project is written: over its row where it has an id, else as a
/// new row whose id it then takes.
#[derive(PartialEq, Eq, Debug)]
pub enum SaveStep {
    Update { id: i64 },
    Insert,
}

/// How a project with the given id is saved.
pub fn save_step(id: Option<i64>) -> (step: SaveStep)
    ensures
        step == (match id {
            Some(i) => SaveStep::Update { id: i },
            None => SaveStep::Insert,
        }),
{
    match id {
        Some(i) => SaveStep::Update { id: i },
        None => SaveStep::Insert,
    }
}

/// The file count stored with a project of `count` files (an `as` cast).
pub fn stored_file_count(count: usize) -> (n: i64)
    ensures
        n == count as i64,
{
    count as i64
}

} // verus!
