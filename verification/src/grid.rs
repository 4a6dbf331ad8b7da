//! The menu grid: which items are shown, in which cell, and how names
//! are shortened to fit.

use vstd::prelude::*;

use crate::model::{Group, GroupModel, Task, TaskModel};
use crate::model::{groups_model, tasks_model};

verus! {

broadcast use crate::model::lemma_groups_model_len, crate::model::lemma_groups_model_index;

/// One cell of the menu: a child group or a child task.
pub enum DrawItem<'a> {
    Task(&'a Task),
    Group(&'a Group),
}

impl<'a> DrawItem<'a> {
    /// The key of the item behind this cell.
    pub open spec fn spec_key(self) -> char {
        match self {
            DrawItem::Group(g) => g.key,
            DrawItem::Task(t) => t.key,
        }
    }

    /// The name of the item behind this cell.
    pub open spec fn spec_name(self) -> Seq<char> {
        match self {
            DrawItem::Group(g) => g.name@,
            DrawItem::Task(t) => t.name@,
        }
    }

    /// The item's key.
    pub fn key(&self) -> (k: char)
        ensures
            k == self.spec_key(),
    {
        match self {
            DrawItem::Group(g) => g.key,
            DrawItem::Task(t) => t.key,
        }
    }

    /// The item's name.
    pub fn name(&'a self) -> (n: &'a str)
        ensures
            n@ == self.spec_name(),
    {
        match self {
            DrawItem::Group(g) => g.name.as_str(),
            DrawItem::Task(t) => t.name.as_str(),
        }
    }
}

/// The cells of a group's menu: every child group first, then every
/// child task, each in its stored order.
pub fn draw_items<'a>(group: &'a Group) -> (items: Vec<DrawItem<'a>>)
    ensures
        items@.len() == group@.groups.len() + group@.tasks.len(),
        forall|i: int|
            0 <= i < group@.groups.len() ==> ((#[trigger] items@[i]) matches DrawItem::Group(g) && g@
                == group@.groups[i]),
        forall|i: int|
            group@.groups.len() <= i < items@.len() ==> ((#[trigger] items@[i]) matches DrawItem::Task(t)
                && t@ == group@.tasks[i - group@.groups.len()]),
{
    proof {
        assert(group@.groups == groups_model(group.groups@));
        assert(group@.tasks == tasks_model(group.tasks@));
    }
    let mut items: Vec<DrawItem<'a>> = Vec::new();
    let mut i: usize = 0;
    while i < group.groups.len()
        invariant
            group@.groups == groups_model(group.groups@),
            group@.tasks == tasks_model(group.tasks@),
            i <= group.groups@.len(),
            items@.len() == i,
            forall|k: int|
                0 <= k < i ==> ((#[trigger] items@[k]) matches DrawItem::Group(g) && g@
                    == group@.groups[k]),
        decreases group.groups@.len() - i,
    {
        items.push(DrawItem::Group(&group.groups[i]));
        i = i + 1;
    }
    let mut j: usize = 0;
    while j < group.tasks.len()
        invariant
            group@.groups == groups_model(group.groups@),
            group@.tasks == tasks_model(group.tasks@),
            j <= group.tasks@.len(),
            items@.len() == group.groups@.len() + j,
            forall|k: int|
                0 <= k < group.groups@.len() ==> ((#[trigger] items@[k]) matches DrawItem::Group(g) && g@
                    == group@.groups[k]),
            forall|k: int|
                group.groups@.len() <= k < items@.len() ==> ((#[trigger] items@[k]) matches DrawItem::Task(t)
                    && t@ == group@.tasks[k - group@.groups.len()]),
        decreases group.tasks@.len() - j,
    {
        items.push(DrawItem::Task(&group.tasks[j]));
        proof {
            assert(group@.tasks[j as int] == group.tasks@[j as int]@);
            assert(items@[items@.len() - 1] matches DrawItem::Task(t) && t@
                == group@.tasks[j as int]);
        }
        j = j + 1;
    }
    items
}

/// How many grid columns a terminal of the given width holds: four
/// characters of margin, twenty per cell, and never fewer than one.
pub open spec fn grid_columns_model(width: int) -> int {
    if width >= 24 {
        (width - 4) / 20
    } else {
        1
    }
}

/// The number of grid columns for a terminal width.
pub fn grid_columns(width: u16) -> (c: usize)
    ensures
        c == grid_columns_model(width as int),
        c >= 1,
{
    if width < 24 {
        1
    } else {
        ((width - 4) / 20) as usize
    }
}

/// The number of grid rows: the item count divided by the column count,
/// rounded up.
pub fn grid_rows(count: usize, columns: usize) -> (r: usize)
    requires
        columns >= 1,
    ensures
        r == (count + columns - 1) / (columns as int),
{
    let q = count / columns;
    let rem = count % columns;
    proof {
        vstd::arithmetic::div_mod::lemma_fundamental_div_mod(count as int, columns as int);
        if rem == 0 {
            vstd::arithmetic::div_mod::lemma_fundamental_div_mod_converse(
                count + columns - 1,
                columns as int,
                q as int,
                columns - 1,
            );
        } else {
            assert((q + 1) * columns == q * columns + columns) by (nonlinear_arith);
            vstd::arithmetic::div_mod::lemma_fundamental_div_mod_converse(
                count + columns - 1,
                columns as int,
                q as int + 1,
                rem - 1,
            );
            assert(columns as int * (q as int) >= q as int) by (nonlinear_arith)
                requires
                    columns >= 1 && q >= 0,
            ;
        }
    }
    if rem == 0 {
        q
    } else {
        q + 1
    }
}

/// The item shown in a cell of the column-major layout: column by
/// column, each column `rows` cells tall; a cell past the item count is
/// empty.
pub fn grid_cell_index(row: usize, col: usize, rows: usize, count: usize) -> (r: Option<
    usize,
>)
    requires
        col * rows + row <= usize::MAX,
    ensures
        ({
            let idx = col * rows + row;
            if idx < count {
                r == Option::<usize>::Some(idx as usize)
            } else {
                r is None
            }
        }),
{
    let idx = col * rows + row;
    if idx < count {
        Option::Some(idx)
    } else {
        Option::None
    }
}

/// A name wider than twelve characters is cut to its first eleven with
/// an ellipsis; a shorter one is kept whole.
pub open spec fn truncate_name_model(name: Seq<char>) -> Seq<char> {
    if name.len() > 12 {
        name.subrange(0, 11) + seq!['…']
    } else {
        name
    }
}

/// Shortens a name to fit one grid cell.
pub fn truncate_name(name: &str) -> (r: String)
    ensures
        r@ == truncate_name_model(name@),
{
    let n = name.unicode_len();
    if n > 12 {
        let mut out = name.substring_char(0, 11).to_owned();
        out.append("…");
        proof {
            reveal_strlit("…");
            assert("…"@ =~= seq!['…']);
        }
        out
    } else {
        name.to_owned()
    }
}

} // verus!
