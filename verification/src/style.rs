//! Display attributes kept beside a sheet in `<name>.style.toml`: attributes
//! per column and per row. In the application rows are identified by `RowId`;
//! on disk a row is anchored by its label or its index (`RowKey`).

use crate::decimal::{decimal, lemma_decimal_value, parse_usize, spec_parse_usize, usize_to_decimal};
use crate::sheet::RowId;
use crate::text::{chars_of, str_eq};
use vstd::string::StringExecFns;
use vstd::prelude::*;

verus! {

/// One set of display attributes (for a row or a column).
#[derive(Debug, PartialEq)]
pub struct Attr {
    pub font: Option<String>,
    pub bold: Option<bool>,
    pub italic: Option<bool>,
    pub color: Option<String>,
    pub background: Option<String>,
}

/// A copy of an optional string.
fn clone_opt_string(o: &Option<String>) -> (r: Option<String>)
    ensures
        r == *o,
{
    match o {
        Some(s) => Some(s.clone()),
        None => None,
    }
}

impl Clone for Attr {
    fn clone(&self) -> (r: Self)
        ensures
            r == *self,
    {
        Attr {
            font: clone_opt_string(&self.font),
            bold: self.bold,
            italic: self.italic,
            color: clone_opt_string(&self.color),
            background: clone_opt_string(&self.background),
        }
    }
}

impl Default for Attr {
    fn default() -> (r: Self)
        ensures
            r.font is None,
            r.bold is None,
            r.italic is None,
            r.color is None,
            r.background is None,
    {
        Attr { font: None, bold: None, italic: None, color: None, background: None }
    }
}

/// The key that anchors a row on disk: its label, or its data-row index.
#[derive(Debug, Clone, PartialEq, Eq, PartialOrd, Ord)]
pub enum RowKey {
    Label(String),
    Index(usize),
}

/// Mathematical model of a `RowKey`.
pub enum RowKeyModel {
    Label(Seq<char>),
    Index(usize),
}

impl RowKey {
    pub open spec fn model(&self) -> RowKeyModel {
        match self {
            RowKey::Label(s) => RowKeyModel::Label(s@),
            RowKey::Index(i) => RowKeyModel::Index(*i),
        }
    }
}

/// The key a sidecar row name stands for: an index when the name reads as a
/// `usize`, a label otherwise.
pub open spec fn spec_row_key(s: Seq<char>) -> RowKeyModel {
    match spec_parse_usize(s) {
        Some(i) => RowKeyModel::Index(i),
        None => RowKeyModel::Label(s),
    }
}

/// The sidecar row name for a key: the label itself, or the index in decimal.
pub open spec fn spec_row_key_string(k: RowKeyModel) -> Seq<char> {
    match k {
        RowKeyModel::Label(s) => s,
        RowKeyModel::Index(i) => decimal(i as nat),
    }
}

/// A key written as a sidecar row name reads back as the same key; a label
/// that reads as a number is the one exception (it reads back as an index).
pub proof fn law_row_key_roundtrip(k: RowKeyModel)
    requires
        k matches RowKeyModel::Label(l) ==> spec_parse_usize(l) is None,
    ensures
        spec_row_key(spec_row_key_string(k)) == k,
{
    match k {
        RowKeyModel::Index(i) => {
            lemma_decimal_value(i as nat);
            let d = decimal(i as nat);
            assert(d[0] != '+') by {
                assert(crate::decimal::is_digit(d[0]));
            }
        },
        RowKeyModel::Label(l) => {},
    }
}

/// Reads a sidecar row name as a key.
pub fn parse_row_key(s: &str) -> (r: RowKey)
    ensures
        r.model() == spec_row_key(s@),
{
    let chars = chars_of(s);
    match parse_usize(&chars) {
        Some(i) => RowKey::Index(i),
        None => RowKey::Label(s.to_owned()),
    }
}

/// Writes a key as a sidecar row name.
pub fn row_key_string(k: &RowKey) -> (r: String)
    ensures
        r@ == spec_row_key_string(k.model()),
{
    match k {
        RowKey::Label(s) => s.clone(),
        RowKey::Index(i) => usize_to_decimal(*i),
    }
}

/// The map that results from setting the attributes of `entries` in order
/// (a later entry for the same name replaces an earlier one).
pub open spec fn attr_map_of(entries: Seq<(Seq<char>, Attr)>) -> Map<Seq<char>, Attr>
    decreases entries.len(),
{
    if entries.len() == 0 {
        Map::empty()
    } else {
        attr_map_of(entries.drop_last()).insert(entries.last().0, entries.last().1)
    }
}

/// The (name, attributes) pairs of `v`, names by their characters.
pub open spec fn named_attrs_view(v: Seq<(String, Attr)>) -> Seq<(Seq<char>, Attr)> {
    v.map_values(|p: (String, Attr)| (p.0@, p.1))
}

/// With distinct names, `attr_map_of` maps each name to its entry.
pub proof fn lemma_attr_map_of_distinct(e: Seq<(Seq<char>, Attr)>)
    requires
        forall|i: int, j: int| 0 <= i < j < e.len() ==> e[i].0 != e[j].0,
    ensures
        forall|k: Seq<char>| #[trigger] attr_map_of(e).contains_key(k) <==> exists|i: int| 0 <= i < e.len() && e[i].0 == k,
        forall|i: int| 0 <= i < e.len() ==> #[trigger] attr_map_of(e)[e[i].0] == e[i].1,
    decreases e.len(),
{
    if e.len() > 0 {
        let init = e.drop_last();
        lemma_attr_map_of_distinct(init);
        assert forall|k: Seq<char>| #[trigger] attr_map_of(e).contains_key(k) <==> exists|i: int| 0 <= i < e.len() && e[i].0 == k by {
            if attr_map_of(e).contains_key(k) && k != e.last().0 {
                assert(attr_map_of(init).contains_key(k));
                let i = choose|i: int| 0 <= i < init.len() && init[i].0 == k;
                assert(e[i].0 == k);
            }
            if exists|i: int| 0 <= i < e.len() && e[i].0 == k {
                let i = choose|i: int| 0 <= i < e.len() && e[i].0 == k;
                if i < e.len() - 1 {
                    assert(init[i].0 == k);
                    assert(attr_map_of(init).contains_key(k));
                }
            }
        }
        assert forall|i: int| 0 <= i < e.len() implies #[trigger] attr_map_of(e)[e[i].0] == e[i].1 by {
            if i < e.len() - 1 {
                assert(init[i] == e[i]);
                assert(attr_map_of(init)[init[i].0] == init[i].1);
            }
        }
    }
}

/// The attributes per column, by column name.
pub struct ColumnAttrs {
    entries: Vec<(String, Attr)>,
}

impl ColumnAttrs {
    /// The names, in the order they were first set.
    pub closed spec fn names(&self) -> Seq<Seq<char>> {
        self.entries@.map_values(|p: (String, Attr)| p.0@)
    }

    /// No name occurs twice.
    #[verifier::type_invariant]
    closed spec fn wf(&self) -> bool {
        forall|i: int, j: int| 0 <= i < j < self.entries@.len() ==> self.entries@[i].0@ != self.entries@[j].0@
    }

    /// The name-to-attributes map.
    pub closed spec fn view(&self) -> Map<Seq<char>, Attr> {
        Map::new(
            |k: Seq<char>| exists|i: int| 0 <= i < self.entries@.len() && self.entries@[i].0@ == k,
            |k: Seq<char>| self.entries@[choose|i: int| 0 <= i < self.entries@.len() && self.entries@[i].0@ == k].1,
        )
    }

    /// No attributes.
    pub fn new() -> (r: ColumnAttrs)
        ensures
            r@ == Map::<Seq<char>, Attr>::empty(),
            r.names() == Seq::<Seq<char>>::empty(),
    {
        let r = ColumnAttrs { entries: Vec::new() };
        assert(r@ =~= Map::<Seq<char>, Attr>::empty());
        assert(r.names() =~= Seq::<Seq<char>>::empty());
        r
    }

    /// The number of columns with attributes.
    pub fn len(&self) -> (n: usize)
        ensures
            n == self@.len(),
    {
        proof {
            use_type_invariant(self);
            self.lemma_len();
        }
        self.entries.len()
    }

    proof fn lemma_len(&self)
        requires
            self.wf(),
        ensures
            self@.dom().finite(),
            self@.len() == self.entries@.len(),
    {
        let names = self.names();
        assert(names.no_duplicates()) by {
            assert forall|i: int, j: int| 0 <= i < names.len() && 0 <= j < names.len() && i != j implies names[i] != names[j] by {
                if i < j {
                    assert(self.entries@[i].0@ != self.entries@[j].0@);
                } else {
                    assert(self.entries@[j].0@ != self.entries@[i].0@);
                }
            }
        }
        assert(self@.dom() =~= names.to_set()) by {
            assert forall|k: Seq<char>| self@.dom().contains(k) <==> names.to_set().contains(k) by {
                if self@.dom().contains(k) {
                    let i = choose|i: int| 0 <= i < self.entries@.len() && self.entries@[i].0@ == k;
                    assert(names[i] == k);
                }
                if names.to_set().contains(k) {
                    let i = choose|i: int| 0 <= i < names.len() && names[i] == k;
                    assert(self.entries@[i].0@ == k);
                }
            }
        }
        names.unique_seq_to_set();
    }

    /// The position of `name` among the entries.
    fn find(&self, name: &str) -> (r: Option<usize>)
        ensures
            match r {
                Some(i) => i < self.entries@.len() && self.entries@[i as int].0@ == name@,
                None => forall|i: int| 0 <= i < self.entries@.len() ==> self.entries@[i].0@ != name@,
            },
    {
        let mut i: usize = 0;
        while i < self.entries.len()
            invariant
                i <= self.entries@.len(),
                forall|j: int| 0 <= j < i ==> self.entries@[j].0@ != name@,
            decreases self.entries@.len() - i,
        {
            if str_eq(self.entries[i].0.as_str(), name) {
                return Some(i);
            }
            i = i + 1;
        }
        None
    }

    /// The attributes of column `name`.
    pub fn get(&self, name: &str) -> (r: Option<&Attr>)
        ensures
            match r {
                Some(a) => self@.contains_key(name@) && self@[name@] == *a,
                None => !self@.contains_key(name@),
            },
    {
        proof {
            use_type_invariant(self);
        }
        match self.find(name) {
            Some(i) => {
                proof {
                    let j = choose|j: int| 0 <= j < self.entries@.len() && self.entries@[j].0@ == name@;
                    assert(j == i);
                }
                Some(&self.entries[i].1)
            },
            None => None,
        }
    }

    /// Sets the attributes of column `name`, giving back the ones it replaces.
    pub fn insert(&mut self, name: String, attr: Attr) -> (r: Option<Attr>)
        ensures
            final(self)@ == old(self)@.insert(name@, attr),
            match r {
                Some(a) => old(self)@.contains_key(name@) && old(self)@[name@] == a,
                None => !old(self)@.contains_key(name@),
            },
    {
        proof {
            use_type_invariant(&*self);
        }
        let ghost before = self.entries@;
        let ghost key = name@;
        match self.find(name.as_str()) {
            Some(i) => {
                let old_attr = self.entries[i].1.clone();
                let mut entries: Vec<(String, Attr)> = Vec::new();
                std::mem::swap(&mut entries, &mut self.entries);
                entries.set(i, (name, attr));
                self.entries = entries;
                proof {
                    let j0 = choose|j: int| 0 <= j < before.len() && before[j].0@ == key;
                    assert(j0 == i);
                    assert forall|k: Seq<char>| #![auto] self@.contains_key(k) <==> old(self)@.insert(key, attr).contains_key(k) by {
                        if self@.contains_key(k) {
                            let j = choose|j: int| 0 <= j < self.entries@.len() && self.entries@[j].0@ == k;
                            if j != i {
                                assert(before[j].0@ == k);
                            }
                        }
                        if old(self)@.contains_key(k) && k != key {
                            let j = choose|j: int| 0 <= j < before.len() && before[j].0@ == k;
                            assert(self.entries@[j].0@ == k);
                        }
                        if k == key {
                            assert(self.entries@[i as int].0@ == k);
                        }
                    }
                    assert forall|k: Seq<char>| #![auto] self@.contains_key(k) implies self@[k] == old(self)@.insert(key, attr)[k] by {
                        let j = choose|j: int| 0 <= j < self.entries@.len() && self.entries@[j].0@ == k;
                        if k == key {
                            assert(j == i);
                        } else {
                            let j1 = choose|j: int| 0 <= j < before.len() && before[j].0@ == k;
                            assert(j1 == j);
                        }
                    }
                    assert(self@ =~= old(self)@.insert(key, attr));
                }
                Some(old_attr)
            },
            None => {
                let mut entries: Vec<(String, Attr)> = Vec::new();
                std::mem::swap(&mut entries, &mut self.entries);
                entries.push((name, attr));
                self.entries = entries;
                proof {
                    let n = before.len() as int;
                    assert forall|k: Seq<char>| #![auto] self@.contains_key(k) <==> old(self)@.insert(key, attr).contains_key(k) by {
                        if self@.contains_key(k) && k != key {
                            let j = choose|j: int| 0 <= j < self.entries@.len() && self.entries@[j].0@ == k;
                            assert(j < n);
                            assert(before[j].0@ == k);
                        }
                        if old(self)@.contains_key(k) && k != key {
                            let j = choose|j: int| 0 <= j < before.len() && before[j].0@ == k;
                            assert(self.entries@[j].0@ == k);
                        }
                        if k == key {
                            assert(self.entries@[n].0@ == k);
                        }
                    }
                    assert forall|k: Seq<char>| #![auto] self@.contains_key(k) implies self@[k] == old(self)@.insert(key, attr)[k] by {
                        let j = choose|j: int| 0 <= j < self.entries@.len() && self.entries@[j].0@ == k;
                        if k == key {
                            assert(j == n);
                        } else {
                            let j1 = choose|j: int| 0 <= j < before.len() && before[j].0@ == k;
                            assert(j1 == j);
                        }
                    }
                    assert(self@ =~= old(self)@.insert(key, attr));
                }
                None
            },
        }
    }

    /// The entries as (name, attributes) pairs, in the order names were first set.
    pub fn to_pairs(&self) -> (r: Vec<(String, Attr)>)
        ensures
            attr_map_of(named_attrs_view(r@)) == self@,
            r@.len() == self@.len(),
            forall|i: int| 0 <= i < r@.len() ==> self@.contains_key(#[trigger] r@[i].0@) && self@[r@[i].0@] == r@[i].1,
            forall|i: int, j: int| 0 <= i < j < r@.len() ==> r@[i].0@ != r@[j].0@,
    {
        proof {
            use_type_invariant(self);
            self.lemma_len();
        }
        let mut r: Vec<(String, Attr)> = Vec::new();
        let mut i: usize = 0;
        while i < self.entries.len()
            invariant
                i <= self.entries@.len(),
                self.wf(),
                r@.len() == i,
                forall|k: int| 0 <= k < i ==> #[trigger] r@[k] == self.entries@[k],
            decreases self.entries@.len() - i,
        {
            let name = self.entries[i].0.clone();
            let attr = self.entries[i].1.clone();
            r.push((name, attr));
            i = i + 1;
        }
        proof {
            assert forall|i: int| 0 <= i < r@.len() implies self@.contains_key(#[trigger] r@[i].0@) && self@[r@[i].0@] == r@[i].1 by {
                assert(self.entries@[i].0@ == r@[i].0@);
                let j = choose|j: int| 0 <= j < self.entries@.len() && self.entries@[j].0@ == r@[i].0@;
                assert(j == i);
            }
            let e = named_attrs_view(r@);
            assert forall|i: int, j: int| 0 <= i < j < e.len() implies e[i].0 != e[j].0 by {
                assert(r@[i] == self.entries@[i]);
                assert(r@[j] == self.entries@[j]);
            }
            lemma_attr_map_of_distinct(e);
            assert forall|k: Seq<char>| #![auto] attr_map_of(e).contains_key(k) <==> self@.contains_key(k) by {
                if self@.contains_key(k) {
                    let j = choose|j: int| 0 <= j < self.entries@.len() && self.entries@[j].0@ == k;
                    assert(e[j].0 == k);
                }
                if attr_map_of(e).contains_key(k) {
                    let j = choose|j: int| 0 <= j < e.len() && e[j].0 == k;
                    assert(self.entries@[j].0@ == k);
                }
            }
            assert forall|k: Seq<char>| #![auto] attr_map_of(e).contains_key(k) implies attr_map_of(e)[k] == self@[k] by {
                let j = choose|j: int| 0 <= j < e.len() && e[j].0 == k;
                assert(attr_map_of(e)[e[j].0] == e[j].1);
                assert(r@[j].0@ == k);
            }
            assert(attr_map_of(e) =~= self@);
        }
        r
    }
}

/// The map that results from setting the attributes of `entries` in order.
pub open spec fn row_attr_map_of(entries: Seq<(RowId, Attr)>) -> Map<RowId, Attr>
    decreases entries.len(),
{
    if entries.len() == 0 {
        Map::empty()
    } else {
        row_attr_map_of(entries.drop_last()).insert(entries.last().0, entries.last().1)
    }
}

/// With distinct ids, `row_attr_map_of` maps each id to its entry.
pub proof fn lemma_row_attr_map_of_distinct(e: Seq<(RowId, Attr)>)
    requires
        forall|i: int, j: int| 0 <= i < j < e.len() ==> e[i].0 != e[j].0,
    ensures
        forall|k: RowId| #[trigger] row_attr_map_of(e).contains_key(k) <==> exists|i: int| 0 <= i < e.len() && e[i].0 == k,
        forall|i: int| 0 <= i < e.len() ==> #[trigger] row_attr_map_of(e)[e[i].0] == e[i].1,
    decreases e.len(),
{
    if e.len() > 0 {
        let init = e.drop_last();
        lemma_row_attr_map_of_distinct(init);
        assert forall|k: RowId| #[trigger] row_attr_map_of(e).contains_key(k) <==> exists|i: int| 0 <= i < e.len() && e[i].0 == k by {
            if row_attr_map_of(e).contains_key(k) && k != e.last().0 {
                assert(row_attr_map_of(init).contains_key(k));
                let i = choose|i: int| 0 <= i < init.len() && init[i].0 == k;
                assert(e[i].0 == k);
            }
            if exists|i: int| 0 <= i < e.len() && e[i].0 == k {
                let i = choose|i: int| 0 <= i < e.len() && e[i].0 == k;
                if i < e.len() - 1 {
                    assert(init[i].0 == k);
                    assert(row_attr_map_of(init).contains_key(k));
                }
            }
        }
        assert forall|i: int| 0 <= i < e.len() implies #[trigger] row_attr_map_of(e)[e[i].0] == e[i].1 by {
            if i < e.len() - 1 {
                assert(init[i] == e[i]);
                assert(row_attr_map_of(init)[init[i].0] == init[i].1);
            }
        }
    }
}

/// The attributes per row, by `RowId`, kept in increasing `RowId` order.
pub struct RowAttrs {
    entries: Vec<(RowId, Attr)>,
}

impl RowAttrs {
    /// The ids, in increasing order.
    pub closed spec fn ids(&self) -> Seq<u64> {
        self.entries@.map_values(|p: (RowId, Attr)| p.0.0)
    }

    /// The ids are strictly increasing.
    #[verifier::type_invariant]
    closed spec fn wf(&self) -> bool {
        forall|i: int, j: int| 0 <= i < j < self.entries@.len() ==> self.entries@[i].0.0 < self.entries@[j].0.0
    }

    /// The id-to-attributes map.
    pub closed spec fn view(&self) -> Map<RowId, Attr> {
        Map::new(
            |k: RowId| exists|i: int| 0 <= i < self.entries@.len() && self.entries@[i].0 == k,
            |k: RowId| self.entries@[choose|i: int| 0 <= i < self.entries@.len() && self.entries@[i].0 == k].1,
        )
    }

    /// No attributes.
    pub fn new() -> (r: RowAttrs)
        ensures
            r@ == Map::<RowId, Attr>::empty(),
            r.ids() == Seq::<u64>::empty(),
    {
        let r = RowAttrs { entries: Vec::new() };
        assert(r@ =~= Map::<RowId, Attr>::empty());
        assert(r.ids() =~= Seq::<u64>::empty());
        r
    }

    /// The number of rows with attributes.
    pub fn len(&self) -> (n: usize)
        ensures
            n == self@.len(),
    {
        proof {
            use_type_invariant(self);
            self.lemma_len();
        }
        self.entries.len()
    }

    proof fn lemma_len(&self)
        requires
            self.wf(),
        ensures
            self@.dom().finite(),
            self@.len() == self.entries@.len(),
    {
        let keys = self.entries@.map_values(|p: (RowId, Attr)| p.0);
        assert(keys.no_duplicates()) by {
            assert forall|i: int, j: int| 0 <= i < keys.len() && 0 <= j < keys.len() && i != j implies keys[i] != keys[j] by {
                if i < j {
                    assert(self.entries@[i].0.0 < self.entries@[j].0.0);
                } else {
                    assert(self.entries@[j].0.0 < self.entries@[i].0.0);
                }
            }
        }
        assert(self@.dom() =~= keys.to_set()) by {
            assert forall|k: RowId| self@.dom().contains(k) <==> keys.to_set().contains(k) by {
                if self@.dom().contains(k) {
                    let i = choose|i: int| 0 <= i < self.entries@.len() && self.entries@[i].0 == k;
                    assert(keys[i] == k);
                }
                if keys.to_set().contains(k) {
                    let i = choose|i: int| 0 <= i < keys.len() && keys[i] == k;
                    assert(self.entries@[i].0 == k);
                }
            }
        }
        keys.unique_seq_to_set();
    }

    /// The first position whose id is not below `id`.
    fn lower_bound(&self, id: u64) -> (r: usize)
        requires
            self.wf(),
        ensures
            r <= self.entries@.len(),
            forall|j: int| 0 <= j < r ==> self.entries@[j].0.0 < id,
            r < self.entries@.len() ==> self.entries@[r as int].0.0 >= id,
    {
        let mut i: usize = 0;
        while i < self.entries.len() && self.entries[i].0.0 < id
            invariant
                i <= self.entries@.len(),
                forall|j: int| 0 <= j < i ==> self.entries@[j].0.0 < id,
            decreases self.entries@.len() - i,
        {
            i = i + 1;
        }
        i
    }

    /// The attributes of row `id`.
    pub fn get(&self, id: &RowId) -> (r: Option<&Attr>)
        ensures
            match r {
                Some(a) => self@.contains_key(*id) && self@[*id] == *a,
                None => !self@.contains_key(*id),
            },
    {
        proof {
            use_type_invariant(self);
        }
        let i = self.lower_bound(id.0);
        if i < self.entries.len() && self.entries[i].0.0 == id.0 {
            proof {
                let j = choose|j: int| 0 <= j < self.entries@.len() && self.entries@[j].0 == *id;
                if j < i {
                } else if j > i {
                    assert(self.entries@[i as int].0.0 < self.entries@[j].0.0);
                }
            }
            Some(&self.entries[i].1)
        } else {
            proof {
                if self@.contains_key(*id) {
                    let j = choose|j: int| 0 <= j < self.entries@.len() && self.entries@[j].0 == *id;
                    if j > i {
                        assert(self.entries@[i as int].0.0 < self.entries@[j].0.0);
                    }
                }
            }
            None
        }
    }

    /// Sets the attributes of row `id`, giving back the ones it replaces.
    pub fn insert(&mut self, id: RowId, attr: Attr) -> (r: Option<Attr>)
        ensures
            final(self)@ == old(self)@.insert(id, attr),
            match r {
                Some(a) => old(self)@.contains_key(id) && old(self)@[id] == a,
                None => !old(self)@.contains_key(id),
            },
    {
        proof {
            use_type_invariant(&*self);
        }
        let ghost before = self.entries@;
        let i = self.lower_bound(id.0);
        if i < self.entries.len() && self.entries[i].0.0 == id.0 {
            let old_attr = self.entries[i].1.clone();
            let mut entries: Vec<(RowId, Attr)> = Vec::new();
            std::mem::swap(&mut entries, &mut self.entries);
            entries.set(i, (id, attr));
            self.entries = entries;
            proof {
                assert(before[i as int].0 == id);
                assert forall|k: RowId| #![auto] self@.contains_key(k) <==> old(self)@.insert(id, attr).contains_key(k) by {
                    if self@.contains_key(k) {
                        let j = choose|j: int| 0 <= j < self.entries@.len() && self.entries@[j].0 == k;
                        if j != i {
                            assert(before[j].0 == k);
                        }
                    }
                    if old(self)@.contains_key(k) && k != id {
                        let j = choose|j: int| 0 <= j < before.len() && before[j].0 == k;
                        assert(self.entries@[j].0 == k);
                    }
                    if k == id {
                        assert(self.entries@[i as int].0 == k);
                    }
                }
                assert forall|k: RowId| #![auto] self@.contains_key(k) implies self@[k] == old(self)@.insert(id, attr)[k] by {
                    let j = choose|j: int| 0 <= j < self.entries@.len() && self.entries@[j].0 == k;
                    if k == id {
                        if j < i {
                            assert(self.entries@[j].0.0 < self.entries@[i as int].0.0);
                        } else if j > i {
                            assert(self.entries@[i as int].0.0 < self.entries@[j].0.0);
                        }
                    } else {
                        let j1 = choose|j: int| 0 <= j < before.len() && before[j].0 == k;
                        if j1 < j {
                            assert(before[j1].0.0 < before[j].0.0);
                        } else if j1 > j {
                            assert(before[j].0.0 < before[j1].0.0);
                        }
                    }
                }
                assert(self@ =~= old(self)@.insert(id, attr));
                let j = choose|j: int| 0 <= j < before.len() && before[j].0 == id;
                if j < i {
                    assert(before[j].0.0 < before[i as int].0.0);
                } else if j > i {
                    assert(before[i as int].0.0 < before[j].0.0);
                }
            }
            Some(old_attr)
        } else {
            let mut entries: Vec<(RowId, Attr)> = Vec::new();
            std::mem::swap(&mut entries, &mut self.entries);
            entries.insert(i, (id, attr));
            self.entries = entries;
            proof {
                assert forall|k: RowId| #![auto] self@.contains_key(k) <==> old(self)@.insert(id, attr).contains_key(k) by {
                    if self@.contains_key(k) && k != id {
                        let j = choose|j: int| 0 <= j < self.entries@.len() && self.entries@[j].0 == k;
                        if j < i {
                            assert(before[j].0 == k);
                        } else if j > i {
                            assert(before[j - 1].0 == k);
                        }
                    }
                    if old(self)@.contains_key(k) && k != id {
                        let j = choose|j: int| 0 <= j < before.len() && before[j].0 == k;
                        if j < i {
                            assert(self.entries@[j].0 == k);
                        } else {
                            assert(self.entries@[j + 1].0 == k);
                        }
                    }
                    if k == id {
                        assert(self.entries@[i as int].0 == k);
                    }
                }
                assert forall|k: RowId| #![auto] self@.contains_key(k) implies self@[k] == old(self)@.insert(id, attr)[k] by {
                    let j = choose|j: int| 0 <= j < self.entries@.len() && self.entries@[j].0 == k;
                    if k == id {
                        if j < i {
                            assert(before[j].0.0 < id.0);
                        } else if j > i {
                            assert(before[j - 1].0.0 >= before[i as int].0.0);
                            assert(before[i as int].0.0 > id.0);
                        }
                    } else {
                        let j1 = choose|j: int| 0 <= j < before.len() && before[j].0 == k;
                        let jb = if j < i { j } else { j - 1 };
                        assert(before[jb].0 == k);
                        if j1 < jb {
                            assert(before[j1].0.0 < before[jb].0.0);
                        } else if j1 > jb {
                            assert(before[jb].0.0 < before[j1].0.0);
                        }
                    }
                }
                assert(self@ =~= old(self)@.insert(id, attr));
                if old(self)@.contains_key(id) {
                    let j = choose|j: int| 0 <= j < before.len() && before[j].0 == id;
                    if j > i {
                        assert(before[i as int].0.0 < before[j].0.0);
                    }
                }
            }
            None
        }
    }

    /// Drops the attributes of row `id`, giving them back.
    pub fn remove(&mut self, id: &RowId) -> (r: Option<Attr>)
        ensures
            final(self)@ == old(self)@.remove(*id),
            match r {
                Some(a) => old(self)@.contains_key(*id) && old(self)@[*id] == a,
                None => !old(self)@.contains_key(*id),
            },
    {
        proof {
            use_type_invariant(&*self);
        }
        let ghost before = self.entries@;
        let i = self.lower_bound(id.0);
        if i < self.entries.len() && self.entries[i].0.0 == id.0 {
            let mut entries: Vec<(RowId, Attr)> = Vec::new();
            std::mem::swap(&mut entries, &mut self.entries);
            let (_, a) = entries.remove(i);
            self.entries = entries;
            proof {
                assert(before[i as int].0 == *id);
                assert forall|k: RowId| #![auto] self@.contains_key(k) <==> old(self)@.remove(*id).contains_key(k) by {
                    if self@.contains_key(k) {
                        let j = choose|j: int| 0 <= j < self.entries@.len() && self.entries@[j].0 == k;
                        if j < i {
                            assert(before[j].0 == k);
                            assert(before[j].0.0 < before[i as int].0.0);
                        } else {
                            assert(before[j + 1].0 == k);
                            assert(before[i as int].0.0 < before[j + 1].0.0);
                        }
                    }
                    if old(self)@.contains_key(k) && k != *id {
                        let j = choose|j: int| 0 <= j < before.len() && before[j].0 == k;
                        if j < i {
                            assert(self.entries@[j].0 == k);
                        } else {
                            assert(self.entries@[j - 1].0 == k);
                        }
                    }
                }
                assert forall|k: RowId| #![auto] self@.contains_key(k) implies self@[k] == old(self)@.remove(*id)[k] by {
                    let j = choose|j: int| 0 <= j < self.entries@.len() && self.entries@[j].0 == k;
                    let jb = if j < i { j } else { j + 1 };
                    assert(before[jb].0 == k);
                    let j1 = choose|j: int| 0 <= j < before.len() && before[j].0 == k;
                    if j1 < jb {
                        assert(before[j1].0.0 < before[jb].0.0);
                    } else if j1 > jb {
                        assert(before[jb].0.0 < before[j1].0.0);
                    }
                }
                assert(self@ =~= old(self)@.remove(*id));
                let j = choose|j: int| 0 <= j < before.len() && before[j].0 == *id;
                if j < i {
                    assert(before[j].0.0 < before[i as int].0.0);
                } else if j > i {
                    assert(before[i as int].0.0 < before[j].0.0);
                }
            }
            Some(a)
        } else {
            proof {
                if old(self)@.contains_key(*id) {
                    let j = choose|j: int| 0 <= j < before.len() && before[j].0 == *id;
                    if j > i {
                        assert(before[i as int].0.0 < before[j].0.0);
                    }
                }
                assert(self@ =~= old(self)@.remove(*id));
            }
            None
        }
    }

    /// The entries as (id, attributes) pairs, in increasing id order.
    pub fn to_pairs(&self) -> (r: Vec<(RowId, Attr)>)
        ensures
            row_attr_map_of(r@) == self@,
            r@.map_values(|p: (RowId, Attr)| p.0.0) == self.ids(),
            r@.len() == self@.len(),
            forall|i: int| 0 <= i < r@.len() ==> self@.contains_key(#[trigger] r@[i].0) && self@[r@[i].0] == r@[i].1,
            forall|i: int, j: int| 0 <= i < j < r@.len() ==> r@[i].0.0 < r@[j].0.0,
    {
        proof {
            use_type_invariant(self);
            self.lemma_len();
        }
        let mut r: Vec<(RowId, Attr)> = Vec::new();
        let mut i: usize = 0;
        while i < self.entries.len()
            invariant
                i <= self.entries@.len(),
                self.wf(),
                r@.len() == i,
                forall|k: int| 0 <= k < i ==> #[trigger] r@[k] == self.entries@[k],
            decreases self.entries@.len() - i,
        {
            let attr = self.entries[i].1.clone();
            r.push((self.entries[i].0, attr));
            i = i + 1;
        }
        proof {
            assert forall|i: int| 0 <= i < r@.len() implies self@.contains_key(#[trigger] r@[i].0) && self@[r@[i].0] == r@[i].1 by {
                assert(self.entries@[i].0 == r@[i].0);
                let j = choose|j: int| 0 <= j < self.entries@.len() && self.entries@[j].0 == r@[i].0;
                if j < i {
                    assert(self.entries@[j].0.0 < self.entries@[i].0.0);
                } else if j > i {
                    assert(self.entries@[i].0.0 < self.entries@[j].0.0);
                }
            }
            let e = r@;
            assert forall|i: int, j: int| 0 <= i < j < e.len() implies e[i].0 != e[j].0 by {
                assert(r@[i] == self.entries@[i]);
                assert(r@[j] == self.entries@[j]);
            }
            lemma_row_attr_map_of_distinct(e);
            assert forall|k: RowId| #![auto] row_attr_map_of(e).contains_key(k) <==> self@.contains_key(k) by {
                if self@.contains_key(k) {
                    let j = choose|j: int| 0 <= j < self.entries@.len() && self.entries@[j].0 == k;
                    assert(e[j].0 == k);
                }
                if row_attr_map_of(e).contains_key(k) {
                    let j = choose|j: int| 0 <= j < e.len() && e[j].0 == k;
                    assert(self.entries@[j].0 == k);
                }
            }
            assert forall|k: RowId| #![auto] row_attr_map_of(e).contains_key(k) implies row_attr_map_of(e)[k] == self@[k] by {
                let j = choose|j: int| 0 <= j < e.len() && e[j].0 == k;
                assert(row_attr_map_of(e)[e[j].0] == e[j].1);
                assert(r@[j].0 == k);
            }
            assert(row_attr_map_of(e) =~= self@);
            assert(r@.map_values(|p: (RowId, Attr)| p.0.0) =~= self.ids());
        }
        r
    }
}

/// The display attributes of a sheet: per column name and per row.
pub struct SheetStyle {
    pub columns: ColumnAttrs,
    pub rows: RowAttrs,
}

impl Default for SheetStyle {
    fn default() -> (r: Self)
        ensures
            r.columns@ == Map::<Seq<char>, Attr>::empty(),
            r.rows@ == Map::<RowId, Attr>::empty(),
    {
        SheetStyle { columns: ColumnAttrs::new(), rows: RowAttrs::new() }
    }
}

/// The sidecar file's contents: attributes by column name and by row name
/// (a row label or a data-row index), each list in the order it is read or
/// to be written; a later entry for the same name replaces an earlier one.
pub struct StyleFile {
    pub column: Vec<(String, Attr)>,
    pub row: Vec<(String, Attr)>,
}

/// The sidecar's file name for a sheet whose file stem is `stem`
/// (`core.csv` gives `core.style.toml`; no stem gives `sheet.style.toml`).
pub open spec fn spec_sidecar_file_name(stem: Option<Seq<char>>) -> Seq<char> {
    match stem {
        Some(s) => s + ".style.toml"@,
        None => "sheet"@ + ".style.toml"@,
    }
}

impl SheetStyle {
    /// The sidecar's file name for a sheet whose file stem is `stem`.
    pub fn sidecar_file_name(stem: Option<&str>) -> (r: String)
        ensures
            r@ == spec_sidecar_file_name(match stem {
                Some(s) => Some(s@),
                None => None,
            }),
    {
        let mut name = match stem {
            Some(s) => s.to_owned(),
            None => "sheet".to_owned(),
        };
        name.append(".style.toml");
        name
    }
}

} // verus!
