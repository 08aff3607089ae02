//! A whole project: its settings, constraints, hooks, optional git
//! repository, trust state, the defects found in its constraint file, and its
//! sheets keyed by id (the path relative to the root). Reading and writing
//! files is left to the caller; the project keeps the state and decides.

use crate::constraints::names::{insert_name_exec, insert_names, lemma_insert_names, strictly_sorted};
use crate::constraints::combined::spec_check_combined;
use crate::constraints::rules::names_view;
use crate::constraints::when::{numeric_order, total_order_fn, NumOrder};
use crate::constraints::{
    concat_map, errors_view, lemma_concat_map_step, lemma_take_all, spec_check_static, spec_validate,
    Constraints, LineTarget,
};
use crate::git::GitRepo;
use crate::hooks::{HookOutcome, Hooks};
use crate::sheet::Sheet;
use crate::text::{lemma_split_on_nonempty, split_chars, split_on, str_eq};
use crate::validation::{violations_model, ConstraintError, Violation};
use vstd::prelude::*;
use vstd::string::StringExecFns;

verus! {

/// The project settings (`.project.toml`).
#[derive(Debug, Clone)]
pub struct ProjectConfig {
    pub name: String,
}

impl Default for ProjectConfig {
    fn default() -> (r: Self)
        ensures
            r.name@ == Seq::<char>::empty(),
    {
        ProjectConfig { name: String::new() }
    }
}

/// What a save produced: the violations of the saved sheet and the outcomes
/// of the `on_save` hooks. A save with violations still succeeds.
pub struct SaveReport {
    pub violations: Vec<Violation>,
    pub hook_outcomes: Vec<HookOutcome>,
}

/// The map that results from setting the entries in order (later ones win).
pub open spec fn map_of_sheets(e: Seq<(Seq<char>, Sheet)>) -> Map<Seq<char>, Sheet>
    decreases e.len(),
{
    if e.len() == 0 {
        Map::empty()
    } else {
        map_of_sheets(e.drop_last()).insert(e.last().0, e.last().1)
    }
}

/// The entries of `e` whose name is in `names`.
pub open spec fn keep_named(e: Seq<(Seq<char>, Sheet)>, names: Set<Seq<char>>) -> Seq<(Seq<char>, Sheet)>
    decreases e.len(),
{
    if e.len() == 0 {
        Seq::empty()
    } else if names.contains(e.last().0) {
        keep_named(e.drop_last(), names).push(e.last())
    } else {
        keep_named(e.drop_last(), names)
    }
}

/// Keeping the entries named in `names` keeps the map restricted to `names`.
proof fn lemma_keep_named(e: Seq<(Seq<char>, Sheet)>, names: Set<Seq<char>>)
    ensures
        map_of_sheets(keep_named(e, names)) == map_of_sheets(e).restrict(names),
    decreases e.len(),
{
    if e.len() > 0 {
        lemma_keep_named(e.drop_last(), names);
        let k = keep_named(e, names);
        if names.contains(e.last().0) {
            assert(k.drop_last() == keep_named(e.drop_last(), names));
        }
        assert(map_of_sheets(keep_named(e, names)) =~= map_of_sheets(e).restrict(names));
    } else {
        assert(map_of_sheets(e).restrict(names) =~= Map::<Seq<char>, Sheet>::empty());
    }
}

/// The key of an entry is in the map's domain exactly when some entry has it;
/// the value is that of the last such entry.
proof fn lemma_map_of_sheets_last(e: Seq<(Seq<char>, Sheet)>, i: int)
    requires
        0 <= i < e.len(),
        forall|j: int| i < j < e.len() ==> (#[trigger] e[j]).0 != e[i].0,
    ensures
        map_of_sheets(e).contains_key(e[i].0),
        map_of_sheets(e)[e[i].0] == e[i].1,
    decreases e.len(),
{
    if i < e.len() - 1 {
        lemma_map_of_sheets_last(e.drop_last(), i);
    }
}

/// Replacing the sheet of the last entry with a key replaces the map's value.
proof fn lemma_map_of_sheets_update(e: Seq<(Seq<char>, Sheet)>, i: int, v: Sheet)
    requires
        0 <= i < e.len(),
        forall|j: int| i < j < e.len() ==> (#[trigger] e[j]).0 != e[i].0,
    ensures
        map_of_sheets(e.update(i, (e[i].0, v))) == map_of_sheets(e).insert(e[i].0, v),
    decreases e.len(),
{
    let u = e.update(i, (e[i].0, v));
    if i < e.len() - 1 {
        assert(u.drop_last() =~= e.drop_last().update(i, (e[i].0, v)));
        lemma_map_of_sheets_update(e.drop_last(), i, v);
        assert(map_of_sheets(u) =~= map_of_sheets(e).insert(e[i].0, v));
    } else {
        assert(u.drop_last() =~= e.drop_last());
        assert(map_of_sheets(u) =~= map_of_sheets(e).insert(e[i].0, v));
    }
}

/// A key that no entry has is not in the map.
proof fn lemma_map_of_sheets_absent(e: Seq<(Seq<char>, Sheet)>, k: Seq<char>)
    requires
        forall|j: int| 0 <= j < e.len() ==> (#[trigger] e[j]).0 != k,
    ensures
        !map_of_sheets(e).contains_key(k),
    decreases e.len(),
{
    if e.len() > 0 {
        lemma_map_of_sheets_absent(e.drop_last(), k);
    }
}

/// The domain of the map is the set of the entries' keys.
proof fn lemma_map_of_sheets_dom(e: Seq<(Seq<char>, Sheet)>)
    ensures
        forall|k: Seq<char>| #[trigger] map_of_sheets(e).contains_key(k) <==> keys_of(e).contains(k),
    decreases e.len(),
{
    if e.len() > 0 {
        lemma_map_of_sheets_dom(e.drop_last());
        let ks = keys_of(e);
        let ki = keys_of(e.drop_last());
        assert(ks.drop_last() =~= ki);
        assert forall|k: Seq<char>| #[trigger] map_of_sheets(e).contains_key(k) <==> ks.contains(k) by {
            assert(map_of_sheets(e.drop_last()).contains_key(k) <==> ki.contains(k));
            if ks.contains(k) && k != e.last().0 {
                let j = choose|j: int| 0 <= j < ks.len() && ks[j] == k;
                assert(ki[j] == k);
            }
            if ki.contains(k) {
                let j = choose|j: int| 0 <= j < ki.len() && ki[j] == k;
                assert(ks[j] == k);
            }
            if k == e.last().0 {
                assert(ks[ks.len() - 1] == k);
            }
        }
    }
}

/// The (key, sheet) pairs of parallel lists, as far as both go.
pub open spec fn pairs(keys: Seq<String>, sheets: Seq<Sheet>) -> Seq<(Seq<char>, Sheet)> {
    let n = if keys.len() < sheets.len() { keys.len() } else { sheets.len() };
    Seq::new(n, |i: int| (keys[i]@, sheets[i]))
}

/// The keys of a list of entries.
pub open spec fn keys_of(e: Seq<(Seq<char>, Sheet)>) -> Seq<Seq<char>> {
    e.map_values(|p: (Seq<char>, Sheet)| p.0)
}

proof fn lemma_pairs_update(keys: Seq<String>, sheets: Seq<Sheet>, i: int, v: Sheet)
    requires
        0 <= i < pairs(keys, sheets).len(),
    ensures
        pairs(keys, sheets.update(i, v)) == pairs(keys, sheets).update(i, (keys[i]@, v)),
{
    assert(pairs(keys, sheets.update(i, v)) =~= pairs(keys, sheets).update(i, (keys[i]@, v)));
}

/// Whether `ids` holds `name`.
fn names_contain(ids: &[String], name: &str) -> (r: bool)
    ensures
        r == names_view(ids@).to_set().contains(name@),
{
    let mut i: usize = 0;
    while i < ids.len()
        invariant
            i <= ids@.len(),
            forall|j: int| 0 <= j < i ==> ids@[j]@ != name@,
        decreases ids@.len() - i,
    {
        if str_eq(ids[i].as_str(), name) {
            assert(names_view(ids@)[i as int] == name@);
            return true;
        }
        i = i + 1;
    }
    proof {
        assert forall|j: int| 0 <= j < names_view(ids@).len() implies names_view(ids@)[j] != name@ by {
            assert(names_view(ids@)[j] == ids@[j]@);
        }
    }
    false
}

/// Sheets keyed by id. Setting a key again replaces its sheet.
pub struct SheetSet {
    keys: Vec<String>,
    sheets: Vec<Sheet>,
}

impl SheetSet {
    /// The (key, sheet) entries in the order they were set.
    pub closed spec fn entries(&self) -> Seq<(Seq<char>, Sheet)> {
        pairs(self.keys@, self.sheets@)
    }

    /// The keys of the entries, in the order they were set.
    pub open spec fn keys_view(&self) -> Seq<Seq<char>> {
        keys_of(self.entries())
    }

    /// The id-to-sheet map.
    pub open spec fn view(&self) -> Map<Seq<char>, Sheet> {
        map_of_sheets(self.entries())
    }

    /// No sheets.
    pub fn new() -> (r: SheetSet)
        ensures
            r@ == Map::<Seq<char>, Sheet>::empty(),
            r.keys_view() == Seq::<Seq<char>>::empty(),
    {
        let r = SheetSet { keys: Vec::new(), sheets: Vec::new() };
        assert(r.entries() =~= Seq::<(Seq<char>, Sheet)>::empty());
        assert(r.keys_view() =~= Seq::<Seq<char>>::empty());
        r
    }

    /// The position of the last entry with key `id`.
    fn find(&self, id: &str) -> (r: Option<usize>)
        ensures
            match r {
                Some(i) => i < self.entries().len() && i < self.sheets@.len() && self.entries()[i as int].0 == id@
                    && forall|j: int| i < j < self.entries().len() ==> (#[trigger] self.entries()[j]).0 != id@,
                None => forall|j: int| 0 <= j < self.entries().len() ==> (#[trigger] self.entries()[j]).0 != id@,
            },
    {
        let n = if self.keys.len() < self.sheets.len() { self.keys.len() } else { self.sheets.len() };
        assert(n == self.entries().len());
        let mut i = n;
        while i > 0
            invariant
                i <= n,
                n == self.entries().len(),
                n <= self.keys@.len(),
                n <= self.sheets@.len(),
                forall|j: int| i <= j < n ==> (#[trigger] self.entries()[j]).0 != id@,
            decreases i,
        {
            i = i - 1;
            assert(self.entries()[i as int].0 == self.keys@[i as int]@);
            if str_eq(self.keys[i].as_str(), id) {
                return Some(i);
            }
        }
        None
    }

    /// Whether there is a sheet with id `id`.
    pub fn contains(&self, id: &str) -> (r: bool)
        ensures
            r == self@.contains_key(id@),
    {
        match self.find(id) {
            Some(i) => {
                proof {
                    lemma_map_of_sheets_last(self.entries(), i as int);
                }
                true
            },
            None => {
                proof {
                    lemma_map_of_sheets_absent(self.entries(), id@);
                }
                false
            },
        }
    }

    /// The sheet with id `id`.
    pub fn get(&self, id: &str) -> (r: Option<&Sheet>)
        ensures
            match r {
                Some(s) => self@.contains_key(id@) && *s == self@[id@],
                None => !self@.contains_key(id@),
            },
    {
        match self.find(id) {
            Some(i) => {
                proof {
                    lemma_map_of_sheets_last(self.entries(), i as int);
                }
                Some(&self.sheets[i])
            },
            None => {
                proof {
                    lemma_map_of_sheets_absent(self.entries(), id@);
                }
                None
            },
        }
    }

    /// The sheet with id `id`, to change in place.
    pub fn get_mut(&mut self, id: &str) -> (r: Option<&mut Sheet>)
        ensures
            match r {
                Some(s) => old(self)@.contains_key(id@) && *s == old(self)@[id@]
                    && final(self)@ == old(self)@.insert(id@, *final(s)),
                None => !old(self)@.contains_key(id@) && *final(self) == *old(self),
            },
    {
        match self.find(id) {
            Some(i) => {
                proof {
                    lemma_map_of_sheets_last(self.entries(), i as int);
                }
                let ghost e0 = self.entries();
                let ghost ks = self.keys@;
                let ghost ss = self.sheets@;
                let r = &mut self.sheets[i];
                proof {
                    lemma_map_of_sheets_update(e0, i as int, *final(r));
                    lemma_pairs_update(ks, ss, i as int, *final(r));
                }
                Some(r)
            },
            None => {
                proof {
                    lemma_map_of_sheets_absent(self.entries(), id@);
                }
                None
            },
        }
    }

    /// Sets the sheet of `id` (replacing the one it had).
    pub fn insert(&mut self, id: String, sheet: Sheet)
        ensures
            final(self)@ == old(self)@.insert(id@, sheet),
    {
        match self.find(id.as_str()) {
            Some(i) => {
                let ghost e0 = self.entries();
                proof {
                    lemma_map_of_sheets_update(e0, i as int, sheet);
                    lemma_pairs_update(self.keys@, self.sheets@, i as int, sheet);
                }
                self.sheets[i] = sheet;
            },
            None => {
                let ghost e0 = self.entries();
                let n = if self.keys.len() < self.sheets.len() { self.keys.len() } else { self.sheets.len() };
                self.keys.truncate(n);
                self.sheets.truncate(n);
                assert(self.entries() =~= e0);
                self.keys.push(id);
                self.sheets.push(sheet);
                assert(self.entries() =~= e0.push((id@, sheet)));
                assert(self.entries().drop_last() =~= e0);
            },
        }
    }

    /// Keeps the sheets whose id is in `ids`, drops the others.
    pub fn retain(&mut self, ids: &[String])
        ensures
            final(self)@ == old(self)@.restrict(names_view(ids@).to_set()),
    {
        let ghost names = names_view(ids@).to_set();
        let ghost e0 = self.entries();
        let mut ks: Vec<String> = Vec::new();
        let mut ss: Vec<Sheet> = Vec::new();
        std::mem::swap(&mut ks, &mut self.keys);
        std::mem::swap(&mut ss, &mut self.sheets);
        let ghost ks0 = ks@;
        let ghost ss0 = ss@;
        assert(pairs(ks0, ss0) == e0);
        let n = if ks.len() < ss.len() { ks.len() } else { ss.len() };
        let mut i: usize = 0;
        assert(ks0.skip(0) =~= ks0);
        assert(ss0.skip(0) =~= ss0);
        assert(self.entries() =~= keep_named(e0.take(0), names));
        while i < n
            invariant
                i <= n,
                n == e0.len(),
                n <= ks0.len(),
                n <= ss0.len(),
                e0 == pairs(ks0, ss0),
                names == names_view(ids@).to_set(),
                ks@ == ks0.skip(i as int),
                ss@ == ss0.skip(i as int),
                self.keys@.len() == self.sheets@.len(),
                self.entries() == keep_named(e0.take(i as int), names),
            decreases n - i,
        {
            assert(ks@.drop_first() =~= ks0.skip(i + 1));
            assert(ss@.drop_first() =~= ss0.skip(i + 1));
            let k = ks.remove(0);
            let sh = ss.remove(0);
            assert(k == ks0[i as int] && sh == ss0[i as int]);
            assert(e0.take(i + 1).drop_last() =~= e0.take(i as int));
            assert(e0.take(i + 1).last() == (k@, sh));
            let ghost before = self.entries();
            if names_contain(ids, k.as_str()) {
                self.keys.push(k);
                self.sheets.push(sh);
                assert(self.entries() =~= before.push((k@, sh)));
            } else {
                assert(self.entries() =~= before);
            }
            i = i + 1;
        }
        proof {
            assert(e0.take(n as int) =~= e0);
            lemma_keep_named(e0, names);
        }
    }

    /// The ids, each once, in increasing order.
    pub fn ids(&self) -> (r: Vec<String>)
        ensures
            names_view(r@) == insert_names(Seq::empty(), self.keys_view()),
            strictly_sorted(names_view(r@)),
            forall|k: Seq<char>| #[trigger] names_view(r@).contains(k) <==> self@.contains_key(k),
    {
        let n = if self.keys.len() < self.sheets.len() { self.keys.len() } else { self.sheets.len() };
        let ghost kv = self.keys_view();
        let mut r: Vec<String> = Vec::new();
        let mut i: usize = 0;
        assert(names_view(r@) =~= insert_names(Seq::empty(), kv.take(0)));
        while i < n
            invariant
                i <= n,
                n == kv.len(),
                n <= self.keys@.len(),
                kv == self.keys_view(),
                names_view(r@) == insert_names(Seq::empty(), kv.take(i as int)),
            decreases n - i,
        {
            assert(kv.take(i + 1).drop_last() =~= kv.take(i as int));
            assert(kv.take(i + 1).last() == self.keys@[i as int]@);
            insert_name_exec(&mut r, &self.keys[i]);
            i = i + 1;
        }
        proof {
            assert(kv.take(n as int) =~= kv);
            lemma_insert_names(Seq::empty(), kv);
            lemma_map_of_sheets_dom(self.entries());
            assert forall|k: Seq<char>| #[trigger] names_view(r@).contains(k) <==> self@.contains_key(k) by {
                assert(!Seq::<Seq<char>>::empty().contains(k));
            }
        }
        r
    }
}


/// Whether some header constraint of `c` for sheet `id` names rows, or some
/// value constraint of `c` for sheet `id` targets a row: then the sheet's
/// first column holds row labels.
pub open spec fn spec_has_row_headers(c: Constraints, id: Seq<char>) -> bool {
    ||| exists|i: int| 0 <= i < c.headers@.len() && (#[trigger] c.headers@[i]).spec_matches_sheet(id)
        && (c.headers@[i].row_require@.len() > 0 || c.headers@[i].row_optional@.len() > 0)
    ||| exists|i: int| 0 <= i < c.values@.len() && (#[trigger] c.values@[i]).spec_matches_sheet(id)
        && c.values@[i].target is Row
}

/// Whether sheet `id` has row labels under the constraints `c`.
pub fn sheet_has_row_headers(c: &Constraints, id: &str) -> (r: bool)
    ensures
        r == spec_has_row_headers(*c, id@),
{
    let mut i: usize = 0;
    while i < c.headers.len()
        invariant
            i <= c.headers@.len(),
            forall|j: int| 0 <= j < i ==> !((#[trigger] c.headers@[j]).spec_matches_sheet(id@)
                && (c.headers@[j].row_require@.len() > 0 || c.headers@[j].row_optional@.len() > 0)),
        decreases c.headers@.len() - i,
    {
        let h = &c.headers[i];
        if h.matches_sheet(id) && (h.row_require.len() > 0 || h.row_optional.len() > 0) {
            return true;
        }
        i = i + 1;
    }
    let mut k: usize = 0;
    while k < c.values.len()
        invariant
            k <= c.values@.len(),
            forall|j: int| 0 <= j < c.headers@.len() ==> !((#[trigger] c.headers@[j]).spec_matches_sheet(id@)
                && (c.headers@[j].row_require@.len() > 0 || c.headers@[j].row_optional@.len() > 0)),
            forall|j: int| 0 <= j < k ==> !((#[trigger] c.values@[j]).spec_matches_sheet(id@) && c.values@[j].target is Row),
        decreases c.values@.len() - k,
    {
        let v = &c.values[k];
        if v.matches_sheet(id) {
            if let LineTarget::Row(_) = &v.target {
                return true;
            }
        }
        k = k + 1;
    }
    false
}

/// A whole project.
pub struct Project {
    /// The project root, as path text.
    pub root: String,
    pub config: ProjectConfig,
    pub constraints: Constraints,
    pub hooks: Hooks,
    /// The repository, when the root holds `.git`.
    pub git: Option<GitRepo>,
    /// Whether hooks may run.
    pub trusted: bool,
    /// The defects found in the constraint file.
    pub constraint_errors: Vec<ConstraintError>,
    /// The sheets, by id.
    pub sheets: SheetSet,
}

/// The violations of the sheets `ids` of `sheets`, one sheet after the other.
pub open spec fn sheets_violations_fn(
    c: Constraints,
    sheets: Map<Seq<char>, Sheet>,
    order: spec_fn(Seq<char>, Seq<char>) -> NumOrder,
) -> spec_fn(Seq<char>) -> Seq<crate::validation::ViolationModel> {
    |id: Seq<char>| spec_validate(c.headers@, c.values@, sheets[id], order)
}

impl Project {
    /// The sheets, by id.
    pub open spec fn spec_sheets(&self) -> Map<Seq<char>, Sheet> {
        self.sheets@
    }

    /// The ids of the sheets, each once, in increasing order.
    pub open spec fn spec_sheet_ids(&self) -> Seq<Seq<char>> {
        insert_names(Seq::empty(), self.sheets.keys_view())
    }

    /// A project with no sheets yet, not trusted, with no defects recorded.
    pub fn new(root: String, config: ProjectConfig, constraints: Constraints, hooks: Hooks, git: Option<GitRepo>) -> (p: Project)
        ensures
            p.root == root,
            p.config == config,
            p.constraints == constraints,
            p.hooks == hooks,
            p.git == git,
            !p.trusted,
            p.constraint_errors@.len() == 0,
            p.spec_sheets() == Map::<Seq<char>, Sheet>::empty(),
    {
        Project {
            root,
            config,
            constraints,
            hooks,
            git,
            trusted: false,
            constraint_errors: Vec::new(),
            sheets: SheetSet::new(),
        }
    }

    /// Whether sheet `id` has row labels under the project's constraints.
    pub fn row_headers_for(&self, id: &str) -> (r: bool)
        ensures
            r == spec_has_row_headers(self.constraints, id@),
    {
        sheet_has_row_headers(&self.constraints, id)
    }

    /// Adds `sheet` under its id (replacing a sheet of that id).
    pub fn add_sheet(&mut self, sheet: Sheet)
        ensures
            final(self).spec_sheets() == old(self).spec_sheets().insert(sheet.spec_id(), sheet),
            final(self).root == old(self).root,
            final(self).constraints == old(self).constraints,
            final(self).hooks == old(self).hooks,
            final(self).git == old(self).git,
            final(self).trusted == old(self).trusted,
            final(self).constraint_errors == old(self).constraint_errors,
    {
        let id = String::from_str(sheet.sheet_id().as_str());
        self.sheets.insert(id, sheet);
    }

    /// Whether there is a sheet with id `id`.
    pub fn has_sheet(&self, id: &str) -> (r: bool)
        ensures
            r == self.spec_sheets().contains_key(id@),
    {
        self.sheets.contains(id)
    }

    /// Drops the sheets whose id is not in `ids`; the others keep their
    /// unsaved edits.
    pub fn retain_sheets(&mut self, ids: &[String])
        ensures
            final(self).spec_sheets() == old(self).spec_sheets().restrict(names_view(ids@).to_set()),
            final(self).root == old(self).root,
            final(self).constraints == old(self).constraints,
            final(self).hooks == old(self).hooks,
            final(self).git == old(self).git,
            final(self).trusted == old(self).trusted,
            final(self).constraint_errors == old(self).constraint_errors,
    {
        self.sheets.retain(ids);
    }

    /// Records the static defects of the constraints for the sheets `ids`:
    /// those of `check_static`, then those of `check_combined`
    /// (`num` compares texts as numbers).
    pub fn refresh_static_checks<F: Fn(&str, &str) -> NumOrder>(&mut self, ids: &[String], num: &F)
        requires
            total_order_fn(*num),
        ensures
            forall|order: spec_fn(Seq<char>, Seq<char>) -> NumOrder| #[trigger] numeric_order(*num, order)
                ==> errors_view(final(self).constraint_errors@) == spec_check_static(
                    old(self).constraints.values@,
                    old(self).constraints.headers@,
                    names_view(ids@),
                ) + spec_check_combined(old(self).constraints.values@, names_view(ids@), order),
            final(self).spec_sheets() == old(self).spec_sheets(),
            final(self).root == old(self).root,
            final(self).constraints == old(self).constraints,
            final(self).hooks == old(self).hooks,
            final(self).git == old(self).git,
            final(self).trusted == old(self).trusted,
    {
        let mut errors = self.constraints.check_static(ids);
        let mut more = self.constraints.check_combined(ids, num);
        let ghost first = errors_view(errors@);
        let ghost second = errors_view(more@);
        errors.append(&mut more);
        assert(errors_view(errors@) =~= first + second);
        self.constraint_errors = errors;
    }

    /// The ids of the sheets, each once, in increasing order.
    pub fn sheet_ids(&self) -> (r: Vec<String>)
        ensures
            names_view(r@) == self.spec_sheet_ids(),
            strictly_sorted(names_view(r@)),
            forall|k: Seq<char>| #[trigger] names_view(r@).contains(k) <==> self.spec_sheets().contains_key(k),
    {
        self.sheets.ids()
    }

    /// The sheet with id `id`.
    pub fn sheet(&self, id: &str) -> (r: Option<&Sheet>)
        ensures
            match r {
                Some(s) => self.spec_sheets().contains_key(id@) && *s == self.spec_sheets()[id@],
                None => !self.spec_sheets().contains_key(id@),
            },
    {
        self.sheets.get(id)
    }

    /// The sheet with id `id`, to edit in place.
    pub fn sheet_mut(&mut self, id: &str) -> (r: Option<&mut Sheet>)
        ensures
            match r {
                Some(s) => old(self).spec_sheets().contains_key(id@) && *s == old(self).spec_sheets()[id@]
                    && final(self).spec_sheets() == old(self).spec_sheets().insert(id@, *final(s)),
                None => !old(self).spec_sheets().contains_key(id@) && final(self).spec_sheets() == old(self).spec_sheets(),
            },
            final(self).root == old(self).root,
            final(self).constraints == old(self).constraints,
            final(self).hooks == old(self).hooks,
            final(self).git == old(self).git,
            final(self).trusted == old(self).trusted,
            final(self).constraint_errors == old(self).constraint_errors,
    {
        self.sheets.get_mut(id)
    }

    /// Whether git support is on (the root holds `.git`).
    pub fn git_enabled(&self) -> (r: bool)
        ensures
            r == self.git is Some,
    {
        self.git.is_some()
    }

    /// Records a defect of a settings file (one that could not be read), to
    /// show with the other defects.
    pub fn record_config_error(&mut self, message: String)
        ensures
            errors_view(final(self).constraint_errors@) == errors_view(old(self).constraint_errors@).push(message@),
            final(self).spec_sheets() == old(self).spec_sheets(),
            final(self).root == old(self).root,
            final(self).constraints == old(self).constraints,
            final(self).hooks == old(self).hooks,
            final(self).git == old(self).git,
            final(self).trusted == old(self).trusted,
    {
        let ghost before = errors_view(self.constraint_errors@);
        self.constraint_errors.push(ConstraintError::new(message));
        assert(errors_view(self.constraint_errors@) =~= before.push(message@));
    }

    /// Whether the `on_save` hooks run after a save that found `violations`:
    /// only when the built-in validation passed.
    pub fn save_hooks_due(violations: &Vec<Violation>) -> (r: bool)
        ensures
            r == (violations@.len() == 0),
    {
        violations.len() == 0
    }

    /// Allows or forbids running hooks.
    pub fn set_trusted(&mut self, yes: bool)
        ensures
            final(self).trusted == yes,
            final(self).spec_sheets() == old(self).spec_sheets(),
            final(self).root == old(self).root,
            final(self).constraints == old(self).constraints,
            final(self).hooks == old(self).hooks,
            final(self).git == old(self).git,
            final(self).constraint_errors == old(self).constraint_errors,
    {
        self.trusted = yes;
    }

    /// The violations of every sheet, sheet after sheet in id order.
    /// `num` compares texts as numbers.
    pub fn validate_all<F: Fn(&str, &str) -> NumOrder>(&self, num: &F) -> (r: Vec<Violation>)
        requires
            total_order_fn(*num),
        ensures
            forall|order: spec_fn(Seq<char>, Seq<char>) -> NumOrder| #[trigger] numeric_order(*num, order)
                ==> violations_model(r@) == concat_map(
                    self.spec_sheet_ids(),
                    sheets_violations_fn(self.constraints, self.spec_sheets(), order),
                ),
    {
        let ids = self.sheet_ids();
        let ghost iv = names_view(ids@);
        let mut out: Vec<Violation> = Vec::new();
        let mut i: usize = 0;
        while i < ids.len()
            invariant
                i <= ids@.len(),
                iv == names_view(ids@),
                iv == self.spec_sheet_ids(),
                forall|k: Seq<char>| #[trigger] iv.contains(k) <==> self.spec_sheets().contains_key(k),
                total_order_fn(*num),
                forall|order: spec_fn(Seq<char>, Seq<char>) -> NumOrder| #[trigger] numeric_order(*num, order)
                    ==> violations_model(out@) == concat_map(
                        iv.take(i as int),
                        sheets_violations_fn(self.constraints, self.spec_sheets(), order),
                    ),
            decreases ids@.len() - i,
        {
            assert(iv[i as int] == ids@[i as int]@);
            assert(iv.contains(iv[i as int]));
            let ghost before = violations_model(out@);
            match self.sheet(ids[i].as_str()) {
                Some(sheet) => {
                    let mut vs = self.constraints.validate_sheet(sheet, num);
                    let ghost added = violations_model(vs@);
                    out.append(&mut vs);
                    proof {
                        assert forall|order: spec_fn(Seq<char>, Seq<char>) -> NumOrder| #[trigger] numeric_order(*num, order)
                            implies violations_model(out@) == concat_map(
                                iv.take(i + 1),
                                sheets_violations_fn(self.constraints, self.spec_sheets(), order),
                            ) by {
                            let f = sheets_violations_fn(self.constraints, self.spec_sheets(), order);
                            lemma_concat_map_step(iv, f, i as int);
                            assert(violations_model(out@) =~= before + added);
                        }
                    }
                },
                None => {},
            }
            i = i + 1;
        }
        proof {
            lemma_take_all(iv);
        }
        out
    }
}
/// Whether `s` ends with `suffix`.
pub open spec fn ends_with(s: Seq<char>, suffix: Seq<char>) -> bool {
    s.len() >= suffix.len() && s.skip(s.len() - suffix.len()) == suffix
}

/// Whether a relative path (with `/`) lies inside a directory named `.git`.
pub open spec fn in_git_dir(p: Seq<char>) -> bool {
    split_on(p, '/').drop_last().contains(".git"@)
}

/// Whether a relative file path names a sheet: a `.csv` file outside `.git`.
pub open spec fn is_sheet_path(p: Seq<char>) -> bool {
    ends_with(p, ".csv"@) && !in_git_dir(p)
}

/// The sheet ids among the relative paths of the files under a project root
/// (with `/` between components): the `.csv` files outside any `.git`
/// directory, each once, in increasing order.
pub open spec fn spec_sheet_ids_of_files(paths: Seq<Seq<char>>) -> Seq<Seq<char>> {
    insert_names(Seq::empty(), sheet_paths(paths))
}

/// The paths of `ps` that name sheets, in order.
pub open spec fn sheet_paths(ps: Seq<Seq<char>>) -> Seq<Seq<char>>
    decreases ps.len(),
{
    if ps.len() == 0 {
        Seq::empty()
    } else if is_sheet_path(ps.last()) {
        sheet_paths(ps.drop_last()).push(ps.last())
    } else {
        sheet_paths(ps.drop_last())
    }
}

/// `sheet_paths` keeps exactly the paths that name sheets.
proof fn lemma_sheet_paths(ps: Seq<Seq<char>>)
    ensures
        forall|p: Seq<char>| #[trigger] sheet_paths(ps).contains(p) <==> (ps.contains(p) && is_sheet_path(p)),
    decreases ps.len(),
{
    if ps.len() > 0 {
        let init = ps.drop_last();
        lemma_sheet_paths(init);
        assert forall|p: Seq<char>| #[trigger] sheet_paths(ps).contains(p) <==> (ps.contains(p) && is_sheet_path(p)) by {
            assert(sheet_paths(init).contains(p) <==> (init.contains(p) && is_sheet_path(p)));
            if init.contains(p) {
                let k = choose|k: int| 0 <= k < init.len() && init[k] == p;
                assert(ps[k] == p);
            }
            if ps.contains(p) && p != ps.last() {
                let k = choose|k: int| 0 <= k < ps.len() && ps[k] == p;
                assert(init[k] == p);
            }
            if p == ps.last() {
                assert(ps[ps.len() - 1] == p);
                if is_sheet_path(p) {
                    assert(sheet_paths(ps)[sheet_paths(ps).len() - 1] == p);
                }
            }
            if sheet_paths(ps).contains(p) && is_sheet_path(ps.last()) && p != ps.last() {
                let k = choose|k: int| 0 <= k < sheet_paths(ps).len() && sheet_paths(ps)[k] == p;
                assert(sheet_paths(init)[k] == p);
            }
            if sheet_paths(init).contains(p) && is_sheet_path(ps.last()) {
                let k = choose|k: int| 0 <= k < sheet_paths(init).len() && sheet_paths(init)[k] == p;
                assert(sheet_paths(ps)[k] == p);
            }
        }
    }
}

/// Whether `v` ends with `.csv`.
fn ends_with_csv(v: &Vec<char>) -> (r: bool)
    ensures
        r == ends_with(v@, ".csv"@),
{
    proof {
        reveal_strlit(".csv");
    }
    let n = v.len();
    if n < 4 {
        return false;
    }
    let r = v[n - 4] == '.' && v[n - 3] == 'c' && v[n - 2] == 's' && v[n - 1] == 'v';
    assert(r == (v@.skip(n - 4) =~= ".csv"@)) by {
        if !r {
            if v[n - 4] != '.' {
                assert(v@.skip(n - 4)[0] != ".csv"@[0]);
            } else if v[n - 3] != 'c' {
                assert(v@.skip(n - 4)[1] != ".csv"@[1]);
            } else if v[n - 2] != 's' {
                assert(v@.skip(n - 4)[2] != ".csv"@[2]);
            } else {
                assert(v@.skip(n - 4)[3] != ".csv"@[3]);
            }
        }
    }
    r
}

/// Whether the relative path `v` lies inside a `.git` directory.
fn in_git_dir_exec(v: &Vec<char>) -> (r: bool)
    ensures
        r == in_git_dir(v@),
{
    proof {
        reveal_strlit(".git");
    }
    let parts = split_chars(v.as_slice(), '/');
    let ghost ps = split_on(v@, '/');
    proof {
        lemma_split_on_nonempty(v@, '/');
    }
    let mut i: usize = 0;
    while i < parts.len() - 1
        invariant
            parts@.len() == ps.len(),
            ps == split_on(v@, '/'),
            ps.len() >= 1,
            parts.len() >= 1,
            i + 1 <= parts@.len(),
            forall|k: int| 0 <= k < parts@.len() ==> #[trigger] parts@[k]@ == ps[k],
            forall|k: int| 0 <= k < i ==> ps[k] != ".git"@,
        decreases parts@.len() - i,
    {
        proof {
            reveal_strlit(".git");
        }
        let p = &parts[i];
        let is_git = p.len() == 4 && p[0] == '.' && p[1] == 'g' && p[2] == 'i' && p[3] == 't';
        if is_git {
            assert(p@ =~= ".git"@);
            assert(ps.drop_last()[i as int] == ps[i as int]);
            return true;
        }
        assert(p@ != ".git"@) by {
            if p@ == ".git"@ {
                assert(p@.len() == 4 && p@[0] == '.' && p@[1] == 'g' && p@[2] == 'i' && p@[3] == 't');
            }
        }
        i = i + 1;
    }
    assert forall|k: int| 0 <= k < ps.drop_last().len() implies ps.drop_last()[k] != ".git"@ by {
        assert(ps.drop_last()[k] == ps[k]);
    }
    false
}

/// The sheet ids among the relative paths `paths` of the files under a
/// project root: the `.csv` files outside any `.git` directory, each once,
/// in increasing order.
pub fn sheet_ids_of_files(paths: &[String]) -> (r: Vec<String>)
    ensures
        names_view(r@) == spec_sheet_ids_of_files(names_view(paths@)),
        strictly_sorted(names_view(r@)),
        forall|p: Seq<char>| #[trigger] names_view(r@).contains(p) <==> (names_view(paths@).contains(p) && is_sheet_path(p)),
{
    let ghost pv = names_view(paths@);
    let mut kept: Vec<String> = Vec::new();
    let mut i: usize = 0;
    while i < paths.len()
        invariant
            i <= paths@.len(),
            pv == names_view(paths@),
            names_view(kept@) == sheet_paths(pv.take(i as int)),
        decreases paths@.len() - i,
    {
        let ghost before = names_view(kept@);
        assert(pv.take(i + 1).drop_last() =~= pv.take(i as int));
        assert(pv.take(i + 1).last() == paths@[i as int]@);
        let chars = crate::text::chars_of(paths[i].as_str());
        if ends_with_csv(&chars) && !in_git_dir_exec(&chars) {
            kept.push(String::from_str(paths[i].as_str()));
            assert(names_view(kept@) =~= before.push(paths@[i as int]@));
        }
        i = i + 1;
    }
    assert(pv.take(paths@.len() as int) =~= pv);
    let ghost kv = names_view(kept@);
    let mut r: Vec<String> = Vec::new();
    let mut j: usize = 0;
    assert(names_view(r@) =~= insert_names(Seq::empty(), kv.take(0)));
    while j < kept.len()
        invariant
            j <= kept@.len(),
            kv == names_view(kept@),
            names_view(r@) == insert_names(Seq::empty(), kv.take(j as int)),
        decreases kept@.len() - j,
    {
        assert(kv.take(j + 1).drop_last() =~= kv.take(j as int));
        assert(kv.take(j + 1).last() == kept@[j as int]@);
        insert_name_exec(&mut r, &kept[j]);
        j = j + 1;
    }
    proof {
        assert(kv.take(kept@.len() as int) =~= kv);
        lemma_insert_names(Seq::empty(), kv);
        lemma_sheet_paths(pv);
        assert forall|p: Seq<char>| #[trigger] names_view(r@).contains(p) <==> (pv.contains(p) && is_sheet_path(p)) by {
            assert(!Seq::<Seq<char>>::empty().contains(p));
            assert(sheet_paths(pv).contains(p) <==> (pv.contains(p) && is_sheet_path(p)));
        }
    }
    r
}

} // verus!
