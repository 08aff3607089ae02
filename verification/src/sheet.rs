//! A sheet: one CSV file as a grid of cells. `grid[0]` is the column header
//! row and `grid[1..]` are the data rows. Every data row carries an internal
//! `RowId` that stays with the row across insertions, removals and reorders.

use crate::style::{
    attr_map_of, law_row_key_roundtrip, lemma_row_attr_map_of_distinct, named_attrs_view, parse_row_key,
    row_attr_map_of,
    row_key_string, spec_row_key, spec_row_key_string, Attr, ColumnAttrs, RowAttrs, RowKey, RowKeyModel,
    SheetStyle, StyleFile,
};
use crate::decimal::spec_parse_usize;
use crate::csv_text::{csv_records, csv_written, read_records, write_records};
use crate::text::str_eq;
use vstd::prelude::*;

verus! {

/// A cell position. `row` is the 0-based index of a data row (the column
/// header row is not counted).
#[derive(Debug, Clone, Copy, PartialEq, Eq, Structural)]
pub struct CellPos {
    pub row: usize,
    pub col: usize,
}

/// The internal identifier of a data row; it stays with the row across
/// insertions, removals and reorders.
#[derive(Debug, Clone, Copy, PartialEq, Eq, PartialOrd, Ord, Hash, Structural)]
pub struct RowId(pub u64);

/// The column-name-to-value view of one data row, as the `when` evaluation
/// and the validation read it. Later entries for the same name win.
pub struct RowMap {
    entries: Vec<(String, String)>,
}

/// The map that results from inserting `entries` in order.
pub open spec fn map_of_entries(entries: Seq<(Seq<char>, Seq<char>)>) -> Map<Seq<char>, Seq<char>>
    decreases entries.len(),
{
    if entries.len() == 0 {
        Map::empty()
    } else {
        map_of_entries(entries.drop_last()).insert(entries.last().0, entries.last().1)
    }
}

proof fn lemma_map_of_entries_last(e: Seq<(Seq<char>, Seq<char>)>, i: int, k: Seq<char>)
    requires
        0 <= i < e.len(),
        e[i].0 == k,
        forall|j: int| i < j < e.len() ==> e[j].0 != k,
    ensures
        map_of_entries(e).contains_key(k),
        map_of_entries(e)[k] == e[i].1,
    decreases e.len(),
{
    if i < e.len() - 1 {
        lemma_map_of_entries_last(e.drop_last(), i, k);
    }
}

proof fn lemma_map_of_entries_absent(e: Seq<(Seq<char>, Seq<char>)>, k: Seq<char>)
    requires
        forall|j: int| 0 <= j < e.len() ==> e[j].0 != k,
    ensures
        !map_of_entries(e).contains_key(k),
    decreases e.len(),
{
    if e.len() > 0 {
        lemma_map_of_entries_absent(e.drop_last(), k);
    }
}

impl RowMap {
    /// The entries in insertion order.
    pub closed spec fn entries_view(&self) -> Seq<(Seq<char>, Seq<char>)> {
        self.entries@.map_values(|p: (String, String)| (p.0@, p.1@))
    }

    /// The name-to-value map.
    pub open spec fn view(&self) -> Map<Seq<char>, Seq<char>> {
        map_of_entries(self.entries_view())
    }

    /// An empty row map.
    pub fn new() -> (m: RowMap)
        ensures
            m.entries_view() == Seq::<(Seq<char>, Seq<char>)>::empty(),
            m.view() == Map::<Seq<char>, Seq<char>>::empty(),
    {
        let m = RowMap { entries: Vec::new() };
        assert(m.entries_view() =~= Seq::<(Seq<char>, Seq<char>)>::empty());
        m
    }

    /// Sets `name` to `value`, replacing an earlier value for `name`.
    pub fn insert(&mut self, name: String, value: String)
        ensures
            final(self).entries_view() == old(self).entries_view().push((name@, value@)),
            final(self).view() == old(self).view().insert(name@, value@),
    {
        let ghost before = self.entries_view();
        self.entries.push((name, value));
        assert(self.entries_view() =~= before.push((name@, value@)));
        assert(self.entries_view().drop_last() =~= before);
    }

    /// The value for `name`.
    pub fn get(&self, name: &str) -> (r: Option<&str>)
        ensures
            match r {
                Some(v) => self.view().contains_key(name@) && self.view()[name@] == v@,
                None => !self.view().contains_key(name@),
            },
    {
        let ghost e = self.entries_view();
        let mut i = self.entries.len();
        while i > 0
            invariant
                i <= self.entries@.len(),
                e == self.entries_view(),
                forall|j: int| i <= j < e.len() ==> e[j].0 != name@,
            decreases i,
        {
            i = i - 1;
            assert(e[i as int] == (self.entries@[i as int].0@, self.entries@[i as int].1@));
            if str_eq(self.entries[i].0.as_str(), name) {
                proof {
                    lemma_map_of_entries_last(e, i as int, name@);
                }
                return Some(self.entries[i].1.as_str());
            }
        }
        proof {
            lemma_map_of_entries_absent(e, name@);
        }
        None
    }
}

/// The view of a grid: rows of cells, each cell as its characters.
pub open spec fn grid_view(g: Seq<Vec<String>>) -> Seq<Seq<Seq<char>>> {
    g.map_values(|r: Vec<String>| r@.map_values(|c: String| c@))
}

/// The first position at or after `from` where `ids` holds `id`.
pub open spec fn index_from(ids: Seq<RowId>, id: RowId, from: int) -> Option<int>
    decreases ids.len() - from,
{
    if from < 0 || from >= ids.len() {
        None
    } else if ids[from] == id {
        Some(from)
    } else {
        index_from(ids, id, from + 1)
    }
}

/// The first position of `id` in `ids`, if it occurs.
pub open spec fn spec_index_of(ids: Seq<RowId>, id: RowId) -> Option<int> {
    index_from(ids, id, 0)
}

/// What `index_from` answers.
pub proof fn lemma_index_from(ids: Seq<RowId>, id: RowId, from: int)
    requires
        0 <= from,
    ensures
        match index_from(ids, id, from) {
            Some(i) => from <= i < ids.len() && ids[i] == id && forall|j: int| from <= j < i ==> ids[j] != id,
            None => forall|j: int| from <= j < ids.len() ==> ids[j] != id,
        },
    decreases ids.len() - from,
{
    if from < ids.len() && ids[from] != id {
        lemma_index_from(ids, id, from + 1);
    }
}

/// No id occurs twice in `ids`.
pub open spec fn distinct_ids(ids: Seq<RowId>) -> bool {
    forall|i: int, j: int| 0 <= i < j < ids.len() ==> ids[i] != ids[j]
}

/// In a list of distinct ids, the position of the id at `i` is `i`.
pub proof fn lemma_index_of_distinct(ids: Seq<RowId>, i: int)
    requires
        distinct_ids(ids),
        0 <= i < ids.len(),
    ensures
        spec_index_of(ids, ids[i]) == Some(i),
{
    lemma_index_from(ids, ids[i], 0);
    match spec_index_of(ids, ids[i]) {
        Some(k) => {
            if k < i {
                assert(ids[k] != ids[i]);
            }
        },
        None => {},
    }
}

/// An id that `ids` does not hold has no position.
pub proof fn lemma_index_of_absent(ids: Seq<RowId>, id: RowId)
    requires
        forall|j: int| 0 <= j < ids.len() ==> ids[j] != id,
    ensures
        spec_index_of(ids, id) is None,
{
    lemma_index_from(ids, id, 0);
}

/// Where `insert_row(at, ..)` puts the new row among `n` data rows.
pub open spec fn insert_position(n: int, at: usize) -> int {
    if (at as int) < n {
        at as int
    } else {
        n
    }
}

/// One sheet: a CSV grid (`grid[0]` the column headers, `grid[1..]` the data
/// rows), its display attributes and the ids of its data rows.
pub struct Sheet {
    /// The sheet's id: its path relative to the project root.
    pub id: String,
    pub grid: Vec<Vec<String>>,
    pub has_row_headers: bool,
    pub style: SheetStyle,
    row_ids: Vec<RowId>,
    next_row_id: u64,
    dirty: bool,
}

impl Sheet {
    /// The ids of the data rows, in row order.
    pub closed spec fn ids(&self) -> Seq<RowId> {
        self.row_ids@
    }

    /// The id the next inserted row gets.
    pub closed spec fn next_id(&self) -> u64 {
        self.next_row_id
    }

    /// Whether there are unsaved changes.
    pub closed spec fn spec_dirty(&self) -> bool {
        self.dirty
    }

    /// The sheet's id.
    pub closed spec fn spec_id(&self) -> Seq<char> {
        self.id@
    }

    /// Whether the first column holds row labels.
    pub closed spec fn spec_has_row_headers(&self) -> bool {
        self.has_row_headers
    }

    /// The display attributes.
    pub closed spec fn spec_style(&self) -> SheetStyle {
        self.style
    }

    /// The cells of the grid.
    pub closed spec fn cells(&self) -> Seq<Seq<Seq<char>>> {
        grid_view(self.grid@)
    }

    /// The row ids are distinct and below the next id to hand out.
    pub open spec fn ids_wf(&self) -> bool {
        &&& distinct_ids(self.ids())
        &&& forall|i: int| 0 <= i < self.ids().len() ==> (#[trigger] self.ids()[i]).0 < self.next_id()
    }

    /// The ids handed out so far: at load the data rows get 0, 1, ..; each
    /// `insert_row` then hands out the next one, counting up.
    pub open spec fn issued(&self) -> Set<RowId> {
        Set::new(|x: RowId| x.0 < self.next_id())
    }

    /// Well-formedness: one id per data row (none when the grid is empty), ids as `ids_wf` says.
    pub open spec fn wf(&self) -> bool {
        &&& (self.cells().len() == self.ids().len() + 1 || (self.cells().len() == 0 && self.ids().len() == 0))
        &&& self.ids_wf()
    }

    /// The column headers (the first row of the grid), or none when the grid is empty.
    pub open spec fn spec_headers(&self) -> Seq<Seq<char>> {
        if self.cells().len() > 0 {
            self.cells()[0]
        } else {
            Seq::empty()
        }
    }

    /// The label of data row `r`: its first cell, when row headers are on.
    pub open spec fn spec_row_label(&self, r: int) -> Option<Seq<char>> {
        if self.spec_has_row_headers() && 0 <= r && r + 1 < self.cells().len() && self.cells()[r + 1].len() > 0 {
            Some(self.cells()[r + 1][0])
        } else {
            None
        }
    }

    /// The cell at data row `row`, column `col`.
    pub open spec fn spec_get(&self, row: int, col: int) -> Option<Seq<char>> {
        if 0 <= row && row + 1 < self.cells().len() && 0 <= col < self.cells()[row + 1].len() {
            Some(self.cells()[row + 1][col])
        } else {
            None
        }
    }

    /// The column-name-to-value map of data row `r`: each header with the
    /// row's cell under it (a later header of the same name wins).
    pub open spec fn spec_row_map(&self, r: int) -> Map<Seq<char>, Seq<char>> {
        if 0 <= r && r + 1 < self.cells().len() {
            map_of_entries(row_entries(self.spec_headers(), self.cells()[r + 1]))
        } else {
            Map::empty()
        }
    }

    /// The number of cells in data row `r` (rows may be ragged), or 0 past the last row.
    pub open spec fn spec_row_len(&self, r: int) -> int {
        if 0 <= r && r + 1 < self.cells().len() {
            self.cells()[r + 1].len() as int
        } else {
            0
        }
    }

    /// The number of cells in data row `data_row`.
    pub fn row_len(&self, data_row: usize) -> (n: usize)
        ensures
            n == self.spec_row_len(data_row as int),
    {
        if self.grid.len() > 0 && data_row < self.grid.len() - 1 {
            self.grid[data_row + 1].len()
        } else {
            0
        }
    }

    /// The sheet's id.
    pub fn sheet_id(&self) -> (r: &String)
        ensures
            r@ == self.spec_id(),
    {
        &self.id
    }

    /// Whether the first column holds row labels.
    pub fn row_headers_on(&self) -> (r: bool)
        ensures
            r == self.spec_has_row_headers(),
    {
        self.has_row_headers
    }

    /// The column headers.
    pub fn column_headers(&self) -> (r: &[String])
        ensures
            r@.map_values(|c: String| c@) == self.spec_headers(),
    {
        if self.grid.len() > 0 {
            let r = self.grid[0].as_slice();
            proof {
                assert(r@.map_values(|c: String| c@) == self.cells()[0]);
            }
            r
        } else {
            let r: &[String] = &[];
            proof {
                assert(r@.map_values(|c: String| c@) =~= Seq::<Seq<char>>::empty());
            }
            r
        }
    }

    /// The number of data rows.
    pub fn data_row_count(&self) -> (n: usize)
        ensures
            n == self.ids().len(),
    {
        self.row_ids.len()
    }

    /// The label of data row `data_row` (its first cell), when row headers are on.
    pub fn row_label(&self, data_row: usize) -> (r: Option<&str>)
        ensures
            match r {
                Some(l) => self.spec_row_label(data_row as int) == Some(l@),
                None => self.spec_row_label(data_row as int) is None,
            },
    {
        if !self.has_row_headers {
            return None;
        }
        if self.grid.len() > 0 && data_row < self.grid.len() - 1 {
            if self.grid[data_row + 1].len() > 0 {
                proof {
                    assert(self.cells()[data_row + 1][0] == self.grid@[data_row + 1]@[0]@);
                }
                return Some(self.grid[data_row + 1][0].as_str());
            }
        }
        None
    }

    /// The cell at `pos`.
    pub fn get(&self, pos: CellPos) -> (r: Option<&str>)
        ensures
            match r {
                Some(v) => self.spec_get(pos.row as int, pos.col as int) == Some(v@),
                None => self.spec_get(pos.row as int, pos.col as int) is None,
            },
    {
        if self.grid.len() > 0 && pos.row < self.grid.len() - 1 && pos.col < self.grid[pos.row + 1].len() {
            proof {
                assert(self.cells()[pos.row + 1][pos.col as int] == self.grid@[pos.row + 1]@[pos.col as int]@);
            }
            Some(self.grid[pos.row + 1][pos.col].as_str())
        } else {
            None
        }
    }

    /// Whether there are unsaved changes.
    pub fn is_dirty(&self) -> (r: bool)
        ensures
            r == self.spec_dirty(),
    {
        self.dirty
    }

    /// The id of data row `data_row`.
    pub fn row_id(&self, data_row: usize) -> (r: Option<RowId>)
        ensures
            r == (if data_row < self.ids().len() {
                Some(self.ids()[data_row as int])
            } else {
                None::<RowId>
            }),
    {
        if data_row < self.row_ids.len() {
            Some(self.row_ids[data_row])
        } else {
            None
        }
    }

    /// The data-row index of the row with id `id`.
    pub fn index_of(&self, id: RowId) -> (r: Option<usize>)
        ensures
            match r {
                Some(i) => spec_index_of(self.ids(), id) == Some(i as int),
                None => spec_index_of(self.ids(), id) is None,
            },
    {
        proof {
            lemma_index_from(self.ids(), id, 0);
        }
        let mut i: usize = 0;
        while i < self.row_ids.len()
            invariant
                i <= self.row_ids@.len(),
                forall|j: int| 0 <= j < i ==> self.row_ids@[j] != id,
            decreases self.row_ids@.len() - i,
        {
            if self.row_ids[i] == id {
                proof {
                    lemma_index_from(self.ids(), id, 0);
                }
                return Some(i);
            }
            i = i + 1;
        }
        None
    }
}

/// The (header, value) pairs of a row: each header with the cell under it,
/// for the headers that have a cell in the row.
pub open spec fn row_entries(headers: Seq<Seq<char>>, row: Seq<Seq<char>>) -> Seq<(Seq<char>, Seq<char>)>
    decreases headers.len(),
{
    if headers.len() == 0 {
        Seq::empty()
    } else {
        let init = row_entries(headers.drop_last(), row);
        let c = headers.len() - 1;
        if c < row.len() {
            init.push((headers.last(), row[c]))
        } else {
            init
        }
    }
}

impl Sheet {
    /// Sets the cell at `pos`, when the grid has that cell; otherwise nothing changes.
    pub fn set(&mut self, pos: CellPos, value: String)
        ensures
            old(self).spec_get(pos.row as int, pos.col as int) is Some ==> {
                &&& final(self).cells() == old(self).cells().update(
                    pos.row + 1,
                    old(self).cells()[pos.row + 1].update(pos.col as int, value@),
                )
                &&& final(self).spec_dirty()
            },
            old(self).spec_get(pos.row as int, pos.col as int) is None ==> final(self).cells() == old(self).cells()
                && final(self).spec_dirty() == old(self).spec_dirty(),
            old(self).spec_get(pos.row as int, pos.col as int) is Some ==> final(self).spec_get(
                pos.row as int,
                pos.col as int,
            ) == Some(value@),
            forall|r: int, c: int| !(r == pos.row && c == pos.col) ==> #[trigger] final(self).spec_get(r, c) == old(self).spec_get(r, c),
            final(self).ids() == old(self).ids(),
            final(self).next_id() == old(self).next_id(),
            final(self).spec_id() == old(self).spec_id(),
            final(self).spec_has_row_headers() == old(self).spec_has_row_headers(),
            final(self).spec_style() == old(self).spec_style(),
    {
        if self.grid.len() > 0 && pos.row < self.grid.len() - 1 && pos.col < self.grid[pos.row + 1].len() {
            let r = pos.row + 1;
            self.grid[r][pos.col] = value;
            self.dirty = true;
            proof {
                let expected = old(self).cells().update(
                    pos.row + 1,
                    old(self).cells()[pos.row + 1].update(pos.col as int, value@),
                );
                assert(self.grid@.len() == old(self).grid@.len());
                assert(self.grid@[r as int]@ == old(self).grid@[r as int]@.update(pos.col as int, value));
                assert forall|i: int| 0 <= i < self.grid@.len() implies #[trigger] self.cells()[i] =~= expected[i] by {
                    if i != r {
                        assert(self.grid@[i] == old(self).grid@[i]);
                    }
                }
                assert(self.cells() =~= old(self).cells().update(
                    pos.row + 1,
                    old(self).cells()[pos.row + 1].update(pos.col as int, value@),
                ));
            }
        }
    }
}

impl Sheet {
    /// Inserts `row` as data row `at` (after the last row when `at` is past
    /// the end). The new row gets a fresh id; every other row keeps its id.
    pub fn insert_row(&mut self, at: usize, row: Vec<String>)
        requires
            old(self).wf(),
            old(self).cells().len() > 0,
            old(self).next_id() < u64::MAX,
        ensures
            ({
                let a = if at < old(self).ids().len() { at as int } else { old(self).ids().len() as int };
                &&& final(self).cells() == old(self).cells().insert(a + 1, row@.map_values(|c: String| c@))
                &&& final(self).ids() == old(self).ids().insert(a, RowId(old(self).next_id()))
            }),
            final(self).next_id() == old(self).next_id() + 1,
            !old(self).issued().contains(RowId(old(self).next_id())),
            final(self).issued() == old(self).issued().insert(RowId(old(self).next_id())),
            final(self).wf(),
            final(self).spec_dirty(),
            final(self).spec_id() == old(self).spec_id(),
            final(self).spec_has_row_headers() == old(self).spec_has_row_headers(),
            final(self).spec_style() == old(self).spec_style(),
            forall|i: int| 0 <= i < old(self).ids().len() ==> spec_index_of(final(self).ids(), #[trigger] old(self).ids()[i])
                == Some(if i < insert_position(old(self).ids().len() as int, at) { i } else { i + 1 }),
            spec_index_of(final(self).ids(), RowId(old(self).next_id())) == Some(
                insert_position(old(self).ids().len() as int, at),
            ),
    {
        let n = self.row_ids.len();
        let at = if at < n { at } else { n };
        assert(self.grid@.len() == self.cells().len());
        let g = self.grid.len();
        assert(g == n + 1);
        let ghost rv = row@.map_values(|c: String| c@);
        self.grid.insert(at + 1, row);
        assert(self.cells() =~= old(self).cells().insert(at + 1, rv));
        let id = RowId(self.next_row_id);
        self.next_row_id = self.next_row_id + 1;
        self.row_ids.insert(at, id);
        self.dirty = true;
        assert(self.issued() =~= old(self).issued().insert(id));
        proof {
            let ids = self.ids();
            assert forall|i: int| 0 <= i < ids.len() implies (#[trigger] ids[i]).0 < self.next_id() by {
                if i < at {
                    assert(ids[i] == old(self).ids()[i]);
                } else if i > at {
                    assert(ids[i] == old(self).ids()[i - 1]);
                }
            }
            assert forall|i: int, j: int| 0 <= i < j < ids.len() implies ids[i] != ids[j] by {
                if j == at {
                    assert(ids[i] == old(self).ids()[i]);
                } else if i == at {
                    assert(ids[j] == old(self).ids()[j - 1]);
                } else {
                    let oi = if i < at { i } else { i - 1 };
                    let oj = if j < at { j } else { j - 1 };
                    assert(ids[i] == old(self).ids()[oi]);
                    assert(ids[j] == old(self).ids()[oj]);
                }
            }
            assert forall|i: int| 0 <= i < old(self).ids().len() implies spec_index_of(ids, #[trigger] old(self).ids()[i])
                == Some(if i < at { i } else { i + 1 }) by {
                let j = if i < at { i } else { i + 1 };
                assert(ids[j] == old(self).ids()[i]);
                lemma_index_of_distinct(ids, j);
            }
            assert(ids[at as int] == RowId(old(self).next_id()));
            lemma_index_of_distinct(ids, at as int);
        }
    }

    /// Removes data row `at` together with its row attributes; nothing
    /// happens when there is no such row. Every other row keeps its id.
    pub fn remove_row(&mut self, at: usize)
        requires
            old(self).wf(),
        ensures
            at < old(self).ids().len() ==> {
                &&& final(self).cells() == old(self).cells().remove(at + 1)
                &&& final(self).ids() == old(self).ids().remove(at as int)
                &&& final(self).spec_style().rows@ == old(self).spec_style().rows@.remove(old(self).ids()[at as int])
                &&& final(self).spec_style().columns@ == old(self).spec_style().columns@
                &&& final(self).spec_dirty()
            },
            at >= old(self).ids().len() ==> *final(self) == *old(self),
            at < old(self).ids().len() ==> forall|i: int| 0 <= i < old(self).ids().len() && i != at
                ==> spec_index_of(final(self).ids(), #[trigger] old(self).ids()[i]) == Some(if i < at { i } else { i - 1 }),
            at < old(self).ids().len() ==> spec_index_of(final(self).ids(), old(self).ids()[at as int]) is None,
            final(self).next_id() == old(self).next_id(),
            final(self).wf(),
            final(self).spec_id() == old(self).spec_id(),
            final(self).spec_has_row_headers() == old(self).spec_has_row_headers(),
    {
        if at < self.row_ids.len() {
            assert(self.grid@.len() == self.cells().len());
            self.grid.remove(at + 1);
            assert(self.cells() =~= old(self).cells().remove(at + 1));
            let id = self.row_ids.remove(at);
            self.style.rows.remove(&id);
            self.dirty = true;
            proof {
                let ids = self.ids();
                assert forall|i: int| 0 <= i < ids.len() implies (#[trigger] ids[i]).0 < self.next_id() by {
                    if i < at {
                        assert(ids[i] == old(self).ids()[i]);
                    } else {
                        assert(ids[i] == old(self).ids()[i + 1]);
                    }
                }
                assert forall|i: int, j: int| 0 <= i < j < ids.len() implies ids[i] != ids[j] by {
                    let oi = if i < at { i } else { i + 1 };
                    let oj = if j < at { j } else { j + 1 };
                    assert(ids[i] == old(self).ids()[oi]);
                    assert(ids[j] == old(self).ids()[oj]);
                }
                assert forall|i: int| 0 <= i < old(self).ids().len() && i != at implies spec_index_of(
                    ids,
                    #[trigger] old(self).ids()[i],
                ) == Some(if i < at { i } else { i - 1 }) by {
                    let j = if i < at { i } else { i - 1 };
                    assert(ids[j] == old(self).ids()[i]);
                    lemma_index_of_distinct(ids, j);
                }
                assert forall|j: int| 0 <= j < ids.len() implies ids[j] != old(self).ids()[at as int] by {
                    let oj = if j < at { j } else { j + 1 };
                    assert(ids[j] == old(self).ids()[oj]);
                }
                lemma_index_of_absent(ids, old(self).ids()[at as int]);
            }
        }
    }

    /// The column-name-to-value map of data row `data_row`.
    pub fn row_map(&self, data_row: usize) -> (m: RowMap)
        ensures
            m@ == self.spec_row_map(data_row as int),
    {
        let mut m = RowMap::new();
        if self.grid.len() > 0 && data_row < self.grid.len() - 1 {
            let headers = &self.grid[0];
            let row = &self.grid[data_row + 1];
            let ghost hv = self.spec_headers();
            let ghost rv = self.cells()[data_row + 1];
            assert(hv == headers@.map_values(|c: String| c@));
            assert(rv == row@.map_values(|c: String| c@));
            let mut c: usize = 0;
            while c < headers.len()
                invariant
                    c <= headers@.len(),
                    hv == headers@.map_values(|c: String| c@),
                    rv == row@.map_values(|c: String| c@),
                    m.entries_view() == row_entries(hv.take(c as int), rv),
                decreases headers@.len() - c,
            {
                assert(hv.take(c + 1).drop_last() == hv.take(c as int));
                if c < row.len() {
                    m.insert(headers[c].clone(), row[c].clone());
                }
                c = c + 1;
            }
            assert(hv.take(headers@.len() as int) == hv);
        }
        m
    }

    /// Sets the attributes of column `column`.
    pub fn set_column_attr(&mut self, column: &str, attr: Attr)
        ensures
            final(self).spec_style().columns@ == old(self).spec_style().columns@.insert(column@, attr),
            final(self).spec_style().rows@ == old(self).spec_style().rows@,
            final(self).spec_dirty(),
            final(self).cells() == old(self).cells(),
            final(self).ids() == old(self).ids(),
            final(self).next_id() == old(self).next_id(),
            final(self).spec_id() == old(self).spec_id(),
            final(self).spec_has_row_headers() == old(self).spec_has_row_headers(),
    {
        self.style.columns.insert(column.to_owned(), attr);
        self.dirty = true;
    }

    /// Sets the attributes of the row with id `id`.
    pub fn set_row_attr(&mut self, id: RowId, attr: Attr)
        ensures
            final(self).spec_style().rows@ == old(self).spec_style().rows@.insert(id, attr),
            final(self).spec_style().columns@ == old(self).spec_style().columns@,
            final(self).spec_dirty(),
            final(self).cells() == old(self).cells(),
            final(self).ids() == old(self).ids(),
            final(self).next_id() == old(self).next_id(),
            final(self).spec_id() == old(self).spec_id(),
            final(self).spec_has_row_headers() == old(self).spec_has_row_headers(),
    {
        self.style.rows.insert(id, attr);
        self.dirty = true;
    }

    /// Records that the sheet has been written out.
    pub fn mark_saved(&mut self)
        ensures
            !final(self).spec_dirty(),
            final(self).cells() == old(self).cells(),
            final(self).ids() == old(self).ids(),
            final(self).next_id() == old(self).next_id(),
            final(self).spec_id() == old(self).spec_id(),
            final(self).spec_has_row_headers() == old(self).spec_has_row_headers(),
            final(self).spec_style() == old(self).spec_style(),
    {
        self.dirty = false;
    }
}

/// The first data row at or after `from` whose first cell is `l`.
pub open spec fn first_label_row(cells: Seq<Seq<Seq<char>>>, l: Seq<char>, from: int) -> Option<int>
    decreases cells.len() - from,
{
    if from < 0 || from + 1 >= cells.len() {
        None
    } else if cells[from + 1].len() > 0 && cells[from + 1][0] == l {
        Some(from)
    } else {
        first_label_row(cells, l, from + 1)
    }
}

/// The number of data rows of a grid.
pub open spec fn data_rows(cells: Seq<Seq<Seq<char>>>) -> int {
    if cells.len() > 0 {
        cells.len() - 1
    } else {
        0
    }
}

/// The row a sidecar key names in a freshly read grid (whose rows have the
/// ids 0, 1, ...): an index names that data row; a label names the first
/// data row with that label, and nothing when row headers are off.
pub open spec fn load_key(cells: Seq<Seq<Seq<char>>>, has_row_headers: bool, k: RowKeyModel) -> Option<RowId> {
    match k {
        RowKeyModel::Index(i) => if (i as int) < data_rows(cells) {
            Some(RowId(i as u64))
        } else {
            None
        },
        RowKeyModel::Label(l) => if has_row_headers {
            match first_label_row(cells, l, 0) {
                Some(r) => Some(RowId(r as u64)),
                None => None,
            }
        } else {
            None
        },
    }
}

/// The row attributes read from the sidecar entries `entries`: each entry
/// whose key names a row sets that row's attributes, in order.
pub open spec fn load_rows(cells: Seq<Seq<Seq<char>>>, has_row_headers: bool, entries: Seq<(Seq<char>, Attr)>) -> Map<RowId, Attr>
    decreases entries.len(),
{
    if entries.len() == 0 {
        Map::empty()
    } else {
        let m = load_rows(cells, has_row_headers, entries.drop_last());
        match load_key(cells, has_row_headers, spec_row_key(entries.last().0)) {
            Some(id) => m.insert(id, entries.last().1),
            None => m,
        }
    }
}

impl Sheet {
    /// The key that anchors the row with id `id` in the sidecar: its label
    /// when row headers are on and the label is not empty, its index
    /// otherwise; nothing for an id the sheet does not hold.
    pub closed spec fn spec_anchor(&self, id: RowId) -> Option<RowKeyModel> {
        match spec_index_of(self.ids(), id) {
            None => None,
            Some(idx) => if self.has_row_headers && idx + 1 < self.cells().len() && self.cells()[idx + 1].len() > 0
                && self.cells()[idx + 1][0].len() > 0 {
                Some(RowKeyModel::Label(self.cells()[idx + 1][0]))
            } else {
                Some(RowKeyModel::Index(idx as usize))
            },
        }
    }

    /// The sidecar row entries for the row attributes with ids `ids` (in
    /// that order): one per id the sheet holds, under its anchor key.
    pub closed spec fn anchored_rows(&self, ids: Seq<u64>) -> Seq<(Seq<char>, Attr)>
        decreases ids.len(),
    {
        if ids.len() == 0 {
            Seq::empty()
        } else {
            let init = self.anchored_rows(ids.drop_last());
            let id = RowId(ids.last());
            match self.spec_anchor(id) {
                Some(k) => init.push((spec_row_key_string(k), self.style.rows@[id])),
                None => init,
            }
        }
    }

    /// Builds a sheet from a grid read from its CSV file and the contents of
    /// its sidecar style file. The data rows get the ids 0, 1, ...; the
    /// sidecar's row entries are resolved to rows as `load_key` says.
    pub fn from_parts(id: String, grid: Vec<Vec<String>>, has_row_headers: bool, file: StyleFile) -> (s: Sheet)
        ensures
            s.spec_id() == id@,
            s.cells() == grid_view(grid@),
            s.spec_has_row_headers() == has_row_headers,
            s.ids() == Seq::new(data_rows(grid_view(grid@)) as nat, |i: int| RowId(i as u64)),
            s.next_id() == data_rows(grid_view(grid@)),
            s.issued() == s.ids().to_set(),
            s.wf(),
            !s.spec_dirty(),
            s.spec_style().columns@ == attr_map_of(named_attrs_view(file.column@)),
            s.spec_style().rows@ == load_rows(grid_view(grid@), has_row_headers, named_attrs_view(file.row@)),
    {
        let ghost cells = grid_view(grid@);
        let n: usize = if grid.len() > 0 { grid.len() - 1 } else { 0 };
        let mut row_ids: Vec<RowId> = Vec::new();
        let mut k: usize = 0;
        while k < n
            invariant
                k <= n,
                row_ids@ == Seq::new(k as nat, |i: int| RowId(i as u64)),
            decreases n - k,
        {
            row_ids.push(RowId(k as u64));
            k = k + 1;
            assert(row_ids@ =~= Seq::new(k as nat, |i: int| RowId(i as u64)));
        }
        let mut columns = ColumnAttrs::new();
        let mut i: usize = 0;
        while i < file.column.len()
            invariant
                i <= file.column@.len(),
                columns@ == attr_map_of(named_attrs_view(file.column@).take(i as int)),
            decreases file.column@.len() - i,
        {
            let ghost e = named_attrs_view(file.column@);
            assert(e.take(i + 1).drop_last() == e.take(i as int));
            columns.insert(file.column[i].0.clone(), file.column[i].1.clone());
            i = i + 1;
        }
        assert(named_attrs_view(file.column@).take(file.column@.len() as int) == named_attrs_view(file.column@));
        let mut rows = RowAttrs::new();
        let mut j: usize = 0;
        while j < file.row.len()
            invariant
                j <= file.row@.len(),
                cells == grid_view(grid@),
                n == data_rows(cells),
                rows@ == load_rows(cells, has_row_headers, named_attrs_view(file.row@).take(j as int)),
            decreases file.row@.len() - j,
        {
            let ghost e = named_attrs_view(file.row@);
            assert(e.take(j + 1).drop_last() == e.take(j as int));
            let key = parse_row_key(file.row[j].0.as_str());
            let target = resolve_loaded_key(&grid, n, has_row_headers, &key);
            match target {
                Some(rid) => {
                    rows.insert(rid, file.row[j].1.clone());
                },
                None => {},
            }
            j = j + 1;
        }
        assert(named_attrs_view(file.row@).take(file.row@.len() as int) == named_attrs_view(file.row@));
        let style = SheetStyle { columns, rows };
        let s = Sheet { id, grid, has_row_headers, style, row_ids, next_row_id: n as u64, dirty: false };
        proof {
            assert forall|x: RowId| s.issued().contains(x) <==> s.ids().to_set().contains(x) by {
                if x.0 < n {
                    assert(s.ids()[x.0 as int] == x);
                }
            }
            assert(s.issued() =~= s.ids().to_set());
        }
        s
    }

    /// The contents of the sidecar style file for this sheet: the column
    /// attributes, and the row attributes (in increasing id order) under the
    /// rows' anchor keys.
    pub fn style_file(&self) -> (f: StyleFile)
        ensures
            attr_map_of(named_attrs_view(f.column@)) == self.spec_style().columns@,
            named_attrs_view(f.row@) == self.anchored_rows(self.spec_style().rows.ids()),
            forall|k: u64| #[trigger] self.spec_style().rows.ids().contains(k) <==> self.spec_style().rows@.contains_key(RowId(k)),
    {
        let column = self.style.columns.to_pairs();
        let pairs = self.style.rows.to_pairs();
        let ghost ids = self.style.rows.ids();
        let mut row: Vec<(String, Attr)> = Vec::new();
        let mut i: usize = 0;
        while i < pairs.len()
            invariant
                i <= pairs@.len(),
                ids == self.style.rows.ids(),
                pairs@.map_values(|p: (RowId, Attr)| p.0.0) == ids,
                row_attr_map_of(pairs@) == self.style.rows@,
                forall|a: int, b: int| 0 <= a < b < pairs@.len() ==> pairs@[a].0.0 < pairs@[b].0.0,
                named_attrs_view(row@) == self.anchored_rows(ids.take(i as int)),
            decreases pairs@.len() - i,
        {
            assert(ids.take(i + 1).drop_last() == ids.take(i as int));
            assert(ids.take(i + 1).last() == pairs@[i as int].0.0);
            let (rid, attr) = (pairs[i].0, pairs[i].1.clone());
            proof {
                lemma_row_attr_map_of_distinct(pairs@);
                assert(row_attr_map_of(pairs@)[pairs@[i as int].0] == pairs@[i as int].1);
            }
            match self.anchor(rid) {
                Some(key) => {
                    let name = row_key_string(&key);
                    let ghost before = named_attrs_view(row@);
                    row.push((name, attr));
                    assert(named_attrs_view(row@) =~= before.push((name@, attr)));
                },
                None => {},
            }
            i = i + 1;
        }
        assert(ids.take(pairs@.len() as int) == ids);
        proof {
            lemma_row_attr_map_of_distinct(pairs@);
            assert forall|k: u64| #[trigger] ids.contains(k) <==> self.style.rows@.contains_key(RowId(k)) by {
                if ids.contains(k) {
                    let j = choose|j: int| 0 <= j < ids.len() && ids[j] == k;
                    assert(pairs@[j].0 == RowId(k));
                }
                if self.style.rows@.contains_key(RowId(k)) {
                    let j = choose|j: int| 0 <= j < pairs@.len() && pairs@[j].0 == RowId(k);
                    assert(ids[j] == k);
                }
            }
        }
        StyleFile { column, row }
    }

    /// The anchor key of the row with id `id`.
    fn anchor(&self, id: RowId) -> (r: Option<RowKey>)
        ensures
            match r {
                Some(k) => self.spec_anchor(id) == Some(k.model()),
                None => self.spec_anchor(id) is None,
            },
    {
        let idx = match self.index_of(id) {
            Some(i) => i,
            None => {
                return None;
            },
        };
        proof {
            lemma_index_from(self.ids(), id, 0);
        }
        if self.has_row_headers && self.grid.len() > 0 && idx < self.grid.len() - 1 {
            if self.grid[idx + 1].len() > 0 {
                let label = &self.grid[idx + 1][0];
                proof {
                    assert(self.cells()[idx + 1][0] == label@);
                }
                if !label.as_str().is_empty() {
                    return Some(RowKey::Label(label.clone()));
                }
            }
        }
        Some(RowKey::Index(idx))
    }
}

impl Sheet {
    /// Builds sheet `id` from the bytes of its CSV file (read by the csv
    /// crate) and the contents of its sidecar style file, as `from_parts`
    /// does; fails with the csv crate's message when the bytes do not read.
    pub fn from_csv(id: String, bytes: &[u8], has_row_headers: bool, file: StyleFile) -> (r: Result<Sheet, String>)
        ensures
            match r {
                Ok(s) => csv_records(bytes@) matches Some(cells) && {
                    &&& s.spec_id() == id@
                    &&& s.cells() == cells
                    &&& s.spec_has_row_headers() == has_row_headers
                    &&& s.ids() == Seq::new(data_rows(cells) as nat, |i: int| RowId(i as u64))
                    &&& s.next_id() == data_rows(cells)
                    &&& s.issued() == s.ids().to_set()
                    &&& s.wf()
                    &&& !s.spec_dirty()
                    &&& s.spec_style().columns@ == attr_map_of(named_attrs_view(file.column@))
                    &&& s.spec_style().rows@ == load_rows(cells, has_row_headers, named_attrs_view(file.row@))
                },
                Err(_) => csv_records(bytes@) is None,
            },
    {
        match read_records(bytes) {
            Ok(grid) => Ok(Sheet::from_parts(id, grid, has_row_headers, file)),
            Err(e) => Err(e),
        }
    }

    /// The bytes of the sheet's CSV file, as the csv crate writes the grid;
    /// fails with the csv crate's message.
    pub fn to_csv(&self) -> (r: Result<Vec<u8>, String>)
        ensures
            match r {
                Ok(b) => csv_written(self.cells()) == Some(b@),
                Err(_) => csv_written(self.cells()) is None,
            },
    {
        write_records(&self.grid)
    }
}

/// Whether the label anchors of the rows whose ids are in `ks` read back to
/// the same rows: with row headers on, each such row with a nonempty label
/// has a label that does not read as a number and is the first row with
/// that label.
pub open spec fn labels_anchor_back(s: Sheet, ks: Seq<u64>) -> bool {
    forall|r: int|
        0 <= r < s.ids().len() && ks.contains(#[trigger] s.ids()[r].0) && s.spec_has_row_headers()
            && s.cells()[r + 1].len() > 0 && s.cells()[r + 1][0].len() > 0
            ==> spec_parse_usize(s.cells()[r + 1][0]) is None && first_label_row(s.cells(), s.cells()[r + 1][0], 0)
                == Some(r)
}

/// The row attributes of the ids `ks` moved to the row positions they hold
/// now: the row at position `r` gets the attributes of its id when that id
/// is in `ks`.
pub open spec fn renumbered_rows(s: Sheet, ks: Seq<u64>) -> Map<RowId, Attr> {
    Map::new(
        |r: RowId| (r.0 as int) < s.ids().len() && ks.contains(s.ids()[r.0 as int].0),
        |r: RowId| s.spec_style().rows@[s.ids()[r.0 as int]],
    )
}

/// The sidecar key of a held row reads back, in the same grid, to the row's
/// position.
proof fn lemma_anchor_reads_back(s: Sheet, ks: Seq<u64>, k: u64)
    requires
        s.wf(),
        s.ids().len() <= usize::MAX,
        labels_anchor_back(s, ks),
        ks.contains(k),
        s.spec_anchor(RowId(k)) is Some,
    ensures
        spec_index_of(s.ids(), RowId(k)) matches Some(idx) && load_key(
            s.cells(),
            s.spec_has_row_headers(),
            spec_row_key(spec_row_key_string(s.spec_anchor(RowId(k))->0)),
        ) == Some(RowId(idx as u64)) && 0 <= idx < s.ids().len() && s.ids()[idx] == RowId(k),
{
    lemma_index_from(s.ids(), RowId(k), 0);
    let idx = spec_index_of(s.ids(), RowId(k))->0;
    let key = s.spec_anchor(RowId(k))->0;
    assert(s.ids()[idx].0 == k);
    match key {
        RowKeyModel::Label(l) => {
            assert(s.spec_has_row_headers());
            assert(l == s.cells()[idx + 1][0]);
            assert(ks.contains(s.ids()[idx].0));
            assert(spec_parse_usize(l) is None);
            assert(first_label_row(s.cells(), l, 0) == Some(idx));
            law_row_key_roundtrip(key);
            assert(spec_row_key(spec_row_key_string(key)) == key);
        },
        RowKeyModel::Index(i) => {
            law_row_key_roundtrip(key);
        },
    }
}

/// Reading back the sidecar entries of `ks` gives the renumbering, built up
/// in the order of `ks`.
proof fn lemma_load_anchored(s: Sheet, ks: Seq<u64>, all: Seq<u64>)
    requires
        s.wf(),
        s.ids().len() <= usize::MAX,
        labels_anchor_back(s, all),
        forall|j: int| 0 <= j < ks.len() ==> all.contains(#[trigger] ks[j]),
    ensures
        load_rows(s.cells(), s.spec_has_row_headers(), s.anchored_rows(ks)) == renumbered_rows(s, ks),
    decreases ks.len(),
{
    let m = load_rows(s.cells(), s.spec_has_row_headers(), s.anchored_rows(ks));
    if ks.len() == 0 {
        assert(renumbered_rows(s, ks) =~= Map::<RowId, Attr>::empty());
    } else {
        let init = ks.drop_last();
        let k = ks.last();
        assert forall|j: int| 0 <= j < init.len() implies all.contains(#[trigger] init[j]) by {
            assert(init[j] == ks[j]);
        }
        lemma_load_anchored(s, init, all);
        assert(all.contains(ks[ks.len() - 1]));
        lemma_index_from(s.ids(), RowId(k), 0);
        let prev = renumbered_rows(s, init);
        if s.spec_anchor(RowId(k)) is Some {
            lemma_anchor_reads_back(s, all, k);
            let idx = spec_index_of(s.ids(), RowId(k))->0;
            let e = s.anchored_rows(ks);
            assert(e.drop_last() == s.anchored_rows(init));
            assert(m == prev.insert(RowId(idx as u64), s.spec_style().rows@[RowId(k)]));
            assert(ks[ks.len() - 1] == k);
            assert(s.ids()[idx].0 == k);
            assert forall|r: RowId| #[trigger] m.contains_key(r) <==> renumbered_rows(s, ks).contains_key(r) by {
                let ri = r.0 as int;
                if r == RowId(idx as u64) {
                    assert(ri == idx);
                    assert(ks.contains(s.ids()[ri].0));
                } else {
                    if ri < s.ids().len() && ks.contains(s.ids()[ri].0) {
                        let j = choose|j: int| 0 <= j < ks.len() && ks[j] == s.ids()[ri].0;
                        if j < ks.len() - 1 {
                            assert(init[j] == ks[j]);
                            assert(init.contains(s.ids()[ri].0));
                        } else {
                            lemma_index_of_distinct(s.ids(), ri);
                            assert(s.ids()[ri] == RowId(k));
                            assert(ri == idx);
                        }
                    }
                    if ri < s.ids().len() && init.contains(s.ids()[ri].0) {
                        let j = choose|j: int| 0 <= j < init.len() && init[j] == s.ids()[ri].0;
                        assert(ks[j] == init[j]);
                        assert(ks.contains(s.ids()[ri].0));
                    }
                }
            }
            assert forall|r: RowId| #[trigger] m.contains_key(r) implies m[r] == renumbered_rows(s, ks)[r] by {
                if r == RowId(idx as u64) {
                    assert(s.ids()[r.0 as int] == RowId(k));
                }
            }
            assert(m =~= renumbered_rows(s, ks));
        } else {
            assert(s.anchored_rows(ks) == s.anchored_rows(init));
            assert(spec_index_of(s.ids(), RowId(k)) is None);
            assert forall|r: RowId| #[trigger] m.contains_key(r) <==> renumbered_rows(s, ks).contains_key(r) by {
                if ks.contains(s.ids()[r.0 as int].0) && (r.0 as int) < s.ids().len() {
                    let j = choose|j: int| 0 <= j < ks.len() && ks[j] == s.ids()[r.0 as int].0;
                    if j < ks.len() - 1 {
                        assert(init[j] == ks[j]);
                    } else {
                        assert(s.ids()[r.0 as int] == RowId(k));
                    }
                }
                if init.contains(s.ids()[r.0 as int].0) {
                    let j = choose|j: int| 0 <= j < init.len() && init[j] == s.ids()[r.0 as int].0;
                    assert(ks[j] == init[j]);
                }
            }
            assert(m =~= renumbered_rows(s, ks));
        }
    }
}

/// The sidecar keeps row attributes across a save and a load: writing the
/// attributes of the rows `ks` under their anchors and reading them back
/// into the same grid gives each row, at the position it holds now, the
/// attributes of its id. It holds when label anchors read back to their
/// rows (`labels_anchor_back`); a label that reads as a number, or a label
/// shared with an earlier row, anchors elsewhere.
pub proof fn law_sidecar_rows_roundtrip(s: Sheet, ks: Seq<u64>)
    requires
        s.wf(),
        s.ids().len() <= usize::MAX,
        labels_anchor_back(s, ks),
    ensures
        load_rows(s.cells(), s.spec_has_row_headers(), s.anchored_rows(ks)) == renumbered_rows(s, ks),
{
    lemma_load_anchored(s, ks, ks);
}

/// The row attributes of `s` moved to the positions their rows hold now.
pub open spec fn attrs_by_position(s: Sheet) -> Map<RowId, Attr> {
    Map::new(
        |r: RowId| (r.0 as int) < s.ids().len() && s.spec_style().rows@.contains_key(s.ids()[r.0 as int]),
        |r: RowId| s.spec_style().rows@[s.ids()[r.0 as int]],
    )
}

/// Saving a sheet's style (`style_file`) and loading it back with the same
/// grid (`from_parts`) keeps the column attributes, and gives each row, at
/// its current position, the attributes it had; row ids are handed out
/// again from 0. It holds when label anchors read back to their rows.
pub proof fn law_sidecar_roundtrip(s: Sheet, f: StyleFile, t: Sheet)
    requires
        s.wf(),
        s.ids().len() <= usize::MAX,
        labels_anchor_back(s, s.spec_style().rows.ids()),
        attr_map_of(named_attrs_view(f.column@)) == s.spec_style().columns@,
        named_attrs_view(f.row@) == s.anchored_rows(s.spec_style().rows.ids()),
        forall|k: u64| #[trigger] s.spec_style().rows.ids().contains(k) <==> s.spec_style().rows@.contains_key(RowId(k)),
        t.cells() == s.cells(),
        t.spec_has_row_headers() == s.spec_has_row_headers(),
        t.spec_style().columns@ == attr_map_of(named_attrs_view(f.column@)),
        t.spec_style().rows@ == load_rows(t.cells(), t.spec_has_row_headers(), named_attrs_view(f.row@)),
    ensures
        t.spec_style().columns@ == s.spec_style().columns@,
        t.spec_style().rows@ == attrs_by_position(s),
{
    let ks = s.spec_style().rows.ids();
    law_sidecar_rows_roundtrip(s, ks);
    assert(renumbered_rows(s, ks) =~= attrs_by_position(s));
}

/// The row a sidecar key names in a freshly read grid with `n` data rows.
fn resolve_loaded_key(grid: &Vec<Vec<String>>, n: usize, has_row_headers: bool, key: &RowKey) -> (r: Option<RowId>)
    requires
        n == data_rows(grid_view(grid@)),
    ensures
        r == load_key(grid_view(grid@), has_row_headers, key.model()),
{
    let ghost cells = grid_view(grid@);
    match key {
        RowKey::Index(i) => if *i < n {
            Some(RowId(*i as u64))
        } else {
            None
        },
        RowKey::Label(l) => {
            if !has_row_headers {
                return None;
            }
            let mut r: usize = 0;
            while r < n
                invariant
                    r <= n,
                    n == data_rows(cells),
                    cells == grid_view(grid@),
                    key.model() == RowKeyModel::Label(l@),
                    has_row_headers,
                    first_label_row(cells, l@, 0) == first_label_row(cells, l@, r as int),
                decreases n - r,
            {
                assert(cells[r + 1] == grid@[r + 1]@.map_values(|c: String| c@));
                if grid[r + 1].len() > 0 && grid[r + 1][0] == *l {
                    assert(cells[r + 1][0] == grid@[r + 1]@[0]@);
                    assert(first_label_row(cells, l@, r as int) == Some(r as int));
                    return Some(RowId(r as u64));
                }
                r = r + 1;
            }
            None
        },
    }
}

} // verus!
