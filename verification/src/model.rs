//! What the proposer reads of a model description: its measures and its
//! hierarchies of levels.
//!
//! The model shape:
//! ```json
//! {
//!   "measures": [
//!     {"unique_name": "sales.revenue", "label": "Revenue"},
//!     {"unique_name": "sales.units", "label": "Units Sold"}
//!   ],
//!   "hierarchies": [
//!     {
//!       "unique_name": "geo.store",
//!       "levels": [
//!         {"unique_name": "geo.store.Store Region", "name": "Store Region", "depth": 1},
//!         {"unique_name": "geo.store.Store State",  "name": "Store State",  "depth": 2},
//!         {"unique_name": "geo.store.Store City",   "name": "Store City",   "depth": 3}
//!       ]
//!     },
//!     {
//!       "unique_name": "time.calendar",
//!       "is_time": true,
//!       "levels": [
//!         {"unique_name": "time.calendar.Year",    "name": "Year",    "depth": 1},
//!         {"unique_name": "time.calendar.Quarter", "name": "Quarter", "depth": 2},
//!         {"unique_name": "time.calendar.Month",   "name": "Month",   "depth": 3}
//!       ]
//!     }
//!   ]
//! }
//! ```

use vstd::prelude::*;

use crate::json::{str_at, text_eq, views, Json, JsonV};
use crate::seqs::{first_index, lemma_first_index, lemma_first_index_is, lemma_first_index_none};
use crate::session::{collect_texts, contains_text, string_views, texts_at};

verus! {

/// A resolved hierarchy level with its parent hierarchy.
#[derive(Debug, Clone)]
pub struct Level {
    /// Fully-qualified unique_name for this level.
    pub unique_name: String,
    /// Short name (e.g. "Store State").
    pub name: String,
    /// Depth within the hierarchy (1 = coarsest).
    pub depth: u64,
    /// Parent hierarchy unique_name.
    pub hierarchy: String,
    /// True if this hierarchy is a time dimension.
    pub is_time: bool,
}

/// The mathematical value of a `Level`.
pub struct LevelV {
    pub unique_name: Seq<char>,
    pub name: Seq<char>,
    pub depth: u64,
    pub hierarchy: Seq<char>,
    pub is_time: bool,
}

impl Level {
    pub open spec fn view(&self) -> LevelV {
        LevelV {
            unique_name: self.unique_name@,
            name: self.name@,
            depth: self.depth,
            hierarchy: self.hierarchy@,
            is_time: self.is_time,
        }
    }
}

/// The values of a sequence of levels.
pub open spec fn level_views(v: Seq<Level>) -> Seq<LevelV> {
    Seq::new(v.len(), |i: int| v[i]@)
}

/// The hierarchies of a model (none where `hierarchies` is not an array).
pub open spec fn hierarchies(model: JsonV) -> Seq<JsonV> {
    model.at("hierarchies"@).items()
}

/// Whether a hierarchy is marked as a time dimension.
pub open spec fn hier_is_time(h: JsonV) -> bool {
    match h.at("is_time"@).as_bool() {
        Some(b) => b,
        None => false,
    }
}

/// The level that a level entry of hierarchy `hier` describes.
pub open spec fn level_entry(hier: Seq<char>, is_time: bool, l: JsonV) -> LevelV {
    LevelV {
        unique_name: str_at(l, "unique_name"@),
        name: str_at(l, "name"@),
        depth: match l.at("depth"@).as_u64() {
            Some(d) => d,
            None => 1,
        },
        hierarchy: hier,
        is_time: is_time,
    }
}

/// The levels described by the entries `ls`, leaving out those without a
/// unique name.
pub open spec fn levels_of(hier: Seq<char>, is_time: bool, ls: Seq<JsonV>) -> Seq<LevelV>
    decreases ls.len(),
{
    if ls.len() == 0 {
        Seq::empty()
    } else {
        let l = level_entry(hier, is_time, ls.last());
        if l.unique_name.len() > 0 {
            levels_of(hier, is_time, ls.drop_last()).push(l)
        } else {
            levels_of(hier, is_time, ls.drop_last())
        }
    }
}

/// The levels of one hierarchy.
pub open spec fn hierarchy_levels(h: JsonV) -> Seq<LevelV> {
    levels_of(str_at(h, "unique_name"@), hier_is_time(h), h.at("levels"@).items())
}

/// The levels of the hierarchies `hs`, hierarchy by hierarchy.
pub open spec fn levels_upto(hs: Seq<JsonV>) -> Seq<LevelV>
    decreases hs.len(),
{
    if hs.len() == 0 {
        Seq::empty()
    } else {
        levels_upto(hs.drop_last()) + hierarchy_levels(hs.last())
    }
}

/// All levels of all hierarchies of the model.
pub open spec fn spec_all_levels(model: JsonV) -> Seq<LevelV> {
    levels_upto(hierarchies(model))
}

/// The levels whose unique name is not in `touched`.
pub open spec fn unvisited_of(levels: Seq<LevelV>, touched: Set<Seq<char>>) -> Seq<LevelV>
    decreases levels.len(),
{
    if levels.len() == 0 {
        Seq::empty()
    } else if touched.contains(levels.last().unique_name) {
        unvisited_of(levels.drop_last(), touched)
    } else {
        unvisited_of(levels.drop_last(), touched).push(levels.last())
    }
}

/// The levels of the model that are not in `touched`.
pub open spec fn spec_unvisited(model: JsonV, touched: Set<Seq<char>>) -> Seq<LevelV> {
    unvisited_of(spec_all_levels(model), touched)
}

/// The predicate of a value whose member `key` is the text `value`.
pub open spec fn text_is(key: Seq<char>, value: Seq<char>) -> spec_fn(JsonV) -> bool {
    |v: JsonV| v.at(key).as_str() == Some(value)
}

/// The predicate of a level entry named `n`, by short or unique name.
pub open spec fn level_named(n: Seq<char>) -> spec_fn(JsonV) -> bool {
    |l: JsonV| l.at("name"@).as_str() == Some(n) || l.at("unique_name"@).as_str() == Some(n)
}

/// The predicate of a level entry at depth `d`.
pub open spec fn depth_is(d: u64) -> spec_fn(JsonV) -> bool {
    |l: JsonV| l.at("depth"@).as_u64() == Some(d)
}

/// The predicate of a time hierarchy.
pub open spec fn time_hierarchy() -> spec_fn(JsonV) -> bool {
    |h: JsonV| hier_is_time(h)
}

/// The first hierarchy whose unique name is `hierarchy`.
pub open spec fn find_hierarchy(model: JsonV, hierarchy: Seq<char>) -> Option<JsonV> {
    match first_index(hierarchies(model), text_is("unique_name"@, hierarchy)) {
        Some(i) => Some(hierarchies(model)[i]),
        None => None,
    }
}

/// The level entry one step deeper than the level named `level_name` in
/// hierarchy `hierarchy`.
pub open spec fn spec_child_level(
    model: JsonV,
    hierarchy: Seq<char>,
    level_name: Seq<char>,
) -> Option<JsonV> {
    match find_hierarchy(model, hierarchy) {
        None => None,
        Some(h) => match h.at("levels"@).as_array() {
            None => None,
            Some(ls) => match first_index(ls, level_named(level_name)) {
                None => None,
                Some(ci) => match ls[ci].at("depth"@).as_u64() {
                    None => None,
                    Some(d) => if d == u64::MAX {
                        None
                    } else {
                        match first_index(ls, depth_is((d + 1) as u64)) {
                            Some(k) => Some(ls[k]),
                            None => None,
                        }
                    },
                },
            },
        },
    }
}

/// The unique name of the first time hierarchy, where it has one.
pub open spec fn spec_first_time_hierarchy(model: JsonV) -> Option<Seq<char>> {
    match first_index(hierarchies(model), time_hierarchy()) {
        Some(i) => hierarchies(model)[i].at("unique_name"@).as_str(),
        None => None,
    }
}

/// The least depth among the level entries that have one.
pub open spec fn min_depth(ls: Seq<JsonV>) -> Option<u64>
    decreases ls.len(),
{
    if ls.len() == 0 {
        None
    } else {
        match (min_depth(ls.drop_last()), ls.last().at("depth"@).as_u64()) {
            (Some(a), Some(b)) => Some(if b < a { b } else { a }),
            (Some(a), None) => Some(a),
            (None, b) => b,
        }
    }
}

/// The name of the first level at the least depth of hierarchy `hierarchy`.
pub open spec fn spec_coarsest_level(model: JsonV, hierarchy: Seq<char>) -> Option<Seq<char>> {
    match find_hierarchy(model, hierarchy) {
        None => None,
        Some(h) => match h.at("levels"@).as_array() {
            None => None,
            Some(ls) => match min_depth(ls) {
                None => None,
                Some(d) => match first_index(ls, depth_is(d)) {
                    Some(k) => ls[k].at("name"@).as_str(),
                    None => None,
                },
            },
        },
    }
}

/// The index of the first item whose member `key` is the text `value`.
fn find_by_text(items: &Vec<Json>, key: &str, value: &str) -> (r: Option<usize>)
    ensures
        match r {
            Some(i) => first_index(views(items@), text_is(key@, value@)) == Some(i as int),
            None => first_index(views(items@), text_is(key@, value@)) is None,
        },
        r matches Some(i) ==> i < items@.len(),
{
    let ghost iv = views(items@);
    let mut i: usize = 0;
    while i < items.len()
        invariant
            i <= items@.len(),
            iv == views(items@),
            forall|j: int| 0 <= j < i ==> !text_is(key@, value@)(#[trigger] iv[j]),
        decreases items@.len() - i,
    {
        let hit = match items[i].str_field(key) {
            Some(t) => text_eq(t, value),
            None => false,
        };
        if hit {
            proof {
                lemma_first_index_is(iv, text_is(key@, value@), i as int);
            }
            return Some(i);
        }
        i = i + 1;
    }
    proof {
        lemma_first_index_none(iv, text_is(key@, value@));
    }
    None
}

/// The index of the first level entry named `n`, by short or unique name.
fn find_level_named(items: &Vec<Json>, n: &str) -> (r: Option<usize>)
    ensures
        match r {
            Some(i) => first_index(views(items@), level_named(n@)) == Some(i as int),
            None => first_index(views(items@), level_named(n@)) is None,
        },
        r matches Some(i) ==> i < items@.len(),
{
    let ghost iv = views(items@);
    let mut i: usize = 0;
    while i < items.len()
        invariant
            i <= items@.len(),
            iv == views(items@),
            forall|j: int| 0 <= j < i ==> !level_named(n@)(#[trigger] iv[j]),
        decreases items@.len() - i,
    {
        let by_name = match items[i].str_field("name") {
            Some(t) => text_eq(t, n),
            None => false,
        };
        let by_unique = match items[i].str_field("unique_name") {
            Some(t) => text_eq(t, n),
            None => false,
        };
        if by_name || by_unique {
            proof {
                lemma_first_index_is(iv, level_named(n@), i as int);
            }
            return Some(i);
        }
        i = i + 1;
    }
    proof {
        lemma_first_index_none(iv, level_named(n@));
    }
    None
}

/// The index of the first level entry at depth `d`.
fn find_by_depth(items: &Vec<Json>, d: u64) -> (r: Option<usize>)
    ensures
        match r {
            Some(i) => first_index(views(items@), depth_is(d)) == Some(i as int),
            None => first_index(views(items@), depth_is(d)) is None,
        },
        r matches Some(i) ==> i < items@.len(),
{
    let ghost iv = views(items@);
    let mut i: usize = 0;
    while i < items.len()
        invariant
            i <= items@.len(),
            iv == views(items@),
            forall|j: int| 0 <= j < i ==> !depth_is(d)(#[trigger] iv[j]),
        decreases items@.len() - i,
    {
        if items[i].u64_field("depth") == Some(d) {
            proof {
                lemma_first_index_is(iv, depth_is(d), i as int);
            }
            return Some(i);
        }
        i = i + 1;
    }
    proof {
        lemma_first_index_none(iv, depth_is(d));
    }
    None
}

/// The level entries of the first hierarchy whose unique name is `hierarchy`.
fn hierarchy_level_entries<'a>(model: &'a Json, hierarchy: &str) -> (r: Option<&'a Vec<Json>>)
    ensures
        match r {
            Some(ls) => find_hierarchy(model@, hierarchy@) matches Some(h) && h.at("levels"@).as_array()
                == Some(views(ls@)),
            None => match find_hierarchy(model@, hierarchy@) {
                Some(h) => h.at("levels"@).as_array() is None,
                None => true,
            },
        },
{
    let hs = match model.array_field("hierarchies") {
        Some(hs) => hs,
        None => {
            proof {
                lemma_first_index_none(hierarchies(model@), text_is("unique_name"@, hierarchy@));
            }
            return None;
        },
    };
    assert(hierarchies(model@) == views(hs@));
    match find_by_text(hs, "unique_name", hierarchy) {
        None => None,
        Some(i) => {
            assert(views(hs@)[i as int] == hs@[i as int]@);
            hs[i].array_field("levels")
        },
    }
}

/// All levels from all hierarchies in the model.
pub fn all_levels(model: &Json) -> (r: Vec<Level>)
    ensures
        level_views(r@) == spec_all_levels(model@),
{
    let mut levels: Vec<Level> = Vec::new();
    let hs = match model.array_field("hierarchies") {
        Some(hs) => hs,
        None => {
            assert(level_views(levels@) =~= spec_all_levels(model@));
            return levels;
        },
    };
    let ghost hv = views(hs@);
    assert(hv == hierarchies(model@));
    let mut i: usize = 0;
    while i < hs.len()
        invariant
            i <= hs@.len(),
            hv == views(hs@),
            level_views(levels@) == levels_upto(hv.take(i as int)),
        decreases hs@.len() - i,
    {
        let hier = &hs[i];
        let hier_name = hier.text_field("unique_name");
        let is_time = match hier.bool_field("is_time") {
            Some(b) => b,
            None => false,
        };
        assert(hv.take(i + 1).drop_last() =~= hv.take(i as int));
        let ghost before = level_views(levels@);
        match hier.array_field("levels") {
            Some(ls) => {
                let ghost lv = views(ls@);
                let mut k: usize = 0;
                while k < ls.len()
                    invariant
                        k <= ls@.len(),
                        lv == views(ls@),
                        hier_name@ == str_at(hv[i as int], "unique_name"@),
                        level_views(levels@) == before + levels_of(
                            hier_name@,
                            is_time,
                            lv.take(k as int),
                        ),
                    decreases ls@.len() - k,
                {
                    let l = &ls[k];
                    assert(lv.take(k + 1).drop_last() =~= lv.take(k as int));
                    let unique_name = l.text_field("unique_name");
                    let name = l.text_field("name");
                    let depth = match l.u64_field("depth") {
                        Some(d) => d,
                        None => 1,
                    };
                    if !unique_name.as_str().is_empty() {
                        let ghost prev = level_views(levels@);
                        levels.push(
                            Level { unique_name, name, depth, hierarchy: hier_name.clone(), is_time },
                        );
                        assert(level_views(levels@) =~= prev.push(
                            level_entry(hier_name@, is_time, lv[k as int]),
                        ));
                    }
                    assert(level_views(levels@) =~= before + levels_of(
                        hier_name@,
                        is_time,
                        lv.take(k + 1),
                    ));
                    k = k + 1;
                }
                assert(lv.take(ls@.len() as int) =~= lv);
            },
            None => {
                assert(level_views(levels@) =~= before + hierarchy_levels(hv[i as int]));
            },
        }
        i = i + 1;
    }
    assert(hv.take(hs@.len() as int) =~= hv);
    levels
}

/// Return the level immediately deeper than `level_name` in the same
/// hierarchy, or None if already at the deepest.
pub fn child_level<'a>(model: &'a Json, hierarchy: &str, level_name: &str) -> (r: Option<&'a Json>)
    ensures
        match r {
            Some(c) => spec_child_level(model@, hierarchy@, level_name@) == Some(c@),
            None => spec_child_level(model@, hierarchy@, level_name@) is None,
        },
{
    let ls = match hierarchy_level_entries(model, hierarchy) {
        Some(ls) => ls,
        None => return None,
    };
    let ghost lv = views(ls@);
    let ci = match find_level_named(ls, level_name) {
        Some(ci) => ci,
        None => return None,
    };
    assert(lv[ci as int] == ls@[ci as int]@);
    let d = match ls[ci].u64_field("depth") {
        Some(d) => d,
        None => return None,
    };
    if d == u64::MAX {
        return None;
    }
    match find_by_depth(ls, d + 1) {
        Some(k) => {
            assert(lv[k as int] == ls@[k as int]@);
            Some(&ls[k])
        },
        None => None,
    }
}

/// Return all measures as unique_name strings.
pub fn all_measures(model: &Json) -> (r: Vec<String>)
    ensures
        string_views(r@) == texts_at(model@.at("measures"@).items(), "unique_name"@),
{
    match model.array_field("measures") {
        Some(items) => collect_texts(items, "unique_name"),
        None => {
            let r = Vec::new();
            assert(string_views(r@) =~= texts_at(model@.at("measures"@).items(), "unique_name"@));
            r
        },
    }
}

/// Return all dimension levels that are in the model but not in `touched`.
pub fn unvisited_levels(model: &Json, touched: &Vec<String>) -> (r: Vec<Level>)
    ensures
        level_views(r@) == spec_unvisited(model@, string_views(touched@).to_set()),
{
    let all = all_levels(model);
    let ghost av = level_views(all@);
    let ghost t = string_views(touched@).to_set();
    let mut r: Vec<Level> = Vec::new();
    let mut i: usize = 0;
    while i < all.len()
        invariant
            i <= all@.len(),
            av == level_views(all@),
            t == string_views(touched@).to_set(),
            level_views(r@) == unvisited_of(av.take(i as int), t),
        decreases all@.len() - i,
    {
        let l = &all[i];
        assert(av.take(i + 1).drop_last() =~= av.take(i as int));
        if !contains_text(touched, &l.unique_name) {
            let ghost prev = level_views(r@);
            r.push(
                Level {
                    unique_name: l.unique_name.clone(),
                    name: l.name.clone(),
                    depth: l.depth,
                    hierarchy: l.hierarchy.clone(),
                    is_time: l.is_time,
                },
            );
            assert(level_views(r@) =~= prev.push(av[i as int]));
        }
        assert(level_views(r@) =~= unvisited_of(av.take(i + 1), t));
        i = i + 1;
    }
    assert(av.take(all@.len() as int) =~= av);
    r
}

/// Return the first time hierarchy in the model, if any.
pub fn first_time_hierarchy(model: &Json) -> (r: Option<String>)
    ensures
        match r {
            Some(s) => spec_first_time_hierarchy(model@) == Some(s@),
            None => spec_first_time_hierarchy(model@) is None,
        },
{
    let hs = match model.array_field("hierarchies") {
        Some(hs) => hs,
        None => {
            proof {
                lemma_first_index_none(hierarchies(model@), time_hierarchy());
            }
            return None;
        },
    };
    let ghost hv = views(hs@);
    assert(hv == hierarchies(model@));
    let mut i: usize = 0;
    while i < hs.len()
        invariant
            i <= hs@.len(),
            hv == views(hs@),
            hv == hierarchies(model@),
            forall|j: int| 0 <= j < i ==> !time_hierarchy()(#[trigger] hv[j]),
        decreases hs@.len() - i,
    {
        let is_time = match hs[i].bool_field("is_time") {
            Some(b) => b,
            None => false,
        };
        if is_time {
            proof {
                lemma_first_index_is(hv, time_hierarchy(), i as int);
            }
            assert(hv[i as int] == hs@[i as int]@);
            return match hs[i].str_field("unique_name") {
                Some(s) => Some(s.clone()),
                None => None,
            };
        }
        i = i + 1;
    }
    proof {
        lemma_first_index_none(hv, time_hierarchy());
    }
    None
}

/// Return the name of the coarsest level (least depth) of a hierarchy.
pub fn coarsest_level(model: &Json, hierarchy: &str) -> (r: Option<String>)
    ensures
        match r {
            Some(s) => spec_coarsest_level(model@, hierarchy@) == Some(s@),
            None => spec_coarsest_level(model@, hierarchy@) is None,
        },
{
    let ls = match hierarchy_level_entries(model, hierarchy) {
        Some(ls) => ls,
        None => return None,
    };
    let ghost lv = views(ls@);
    let mut best: Option<u64> = None;
    let mut i: usize = 0;
    while i < ls.len()
        invariant
            i <= ls@.len(),
            lv == views(ls@),
            best == min_depth(lv.take(i as int)),
        decreases ls@.len() - i,
    {
        assert(lv.take(i + 1).drop_last() =~= lv.take(i as int));
        let here = ls[i].u64_field("depth");
        best = match (best, here) {
            (Some(a), Some(b)) => Some(if b < a { b } else { a }),
            (Some(a), None) => Some(a),
            (None, b) => b,
        };
        i = i + 1;
    }
    assert(lv.take(ls@.len() as int) =~= lv);
    let d = match best {
        Some(d) => d,
        None => return None,
    };
    match find_by_depth(ls, d) {
        Some(k) => {
            assert(lv[k as int] == ls@[k as int]@);
            match ls[k].str_field("name") {
                Some(s) => Some(s.clone()),
                None => None,
            }
        },
        None => None,
    }
}

/// The level entries of a hierarchy (none where `levels` is not an array).
pub open spec fn level_entries(h: JsonV) -> Seq<JsonV> {
    h.at("levels"@).items()
}

/// Whether level entry `entry` of hierarchy `hier` is named `n`, in a
/// hierarchy whose unique name is `h`, and has its unique name in `touched`.
pub open spec fn touched_entry(
    hier: JsonV,
    entry: JsonV,
    touched: Set<Seq<char>>,
    h: Seq<char>,
    n: Seq<char>,
) -> bool {
    &&& str_at(hier, "unique_name"@) == h
    &&& str_at(entry, "name"@) == n
    &&& touched.contains(str_at(entry, "unique_name"@))
}

/// Whether a level named `n` of a hierarchy whose unique name is `h` has
/// been touched.
pub open spec fn level_touched(model: JsonV, touched: Set<Seq<char>>, h: Seq<char>, n: Seq<char>) -> bool {
    exists|a: int, b: int|
        0 <= a < hierarchies(model).len() && 0 <= b < level_entries(hierarchies(model)[a]).len()
            && #[trigger] touched_entry(
            hierarchies(model)[a],
            level_entries(hierarchies(model)[a])[b],
            touched,
            h,
            n,
        )
}

/// Whether a level named `n` of a hierarchy whose unique name is `h` has
/// its unique name in `touched`.
pub fn is_level_touched(model: &Json, touched: &Vec<String>, h: &String, n: &String) -> (r: bool)
    ensures
        r == level_touched(model@, string_views(touched@).to_set(), h@, n@),
{
    let ghost t = string_views(touched@).to_set();
    let hs = match model.array_field("hierarchies") {
        Some(hs) => hs,
        None => return false,
    };
    let ghost hv = views(hs@);
    assert(hv == hierarchies(model@));
    let mut a: usize = 0;
    while a < hs.len()
        invariant
            a <= hs@.len(),
            hv == views(hs@),
            hv == hierarchies(model@),
            t == string_views(touched@).to_set(),
            forall|a2: int, b2: int|
                0 <= a2 < a && 0 <= b2 < level_entries(hv[a2]).len() ==> !#[trigger] touched_entry(
                    hv[a2],
                    level_entries(hv[a2])[b2],
                    t,
                    h@,
                    n@,
                ),
        decreases hs@.len() - a,
    {
        let hier = &hs[a];
        assert(hv[a as int] == hier@);
        let hier_name = hier.text_field("unique_name");
        if hier_name == *h {
            match hier.array_field("levels") {
                Some(ls) => {
                    let ghost lv = views(ls@);
                    assert(lv == level_entries(hv[a as int]));
                    let mut b: usize = 0;
                    while b < ls.len()
                        invariant
                            b <= ls@.len(),
                            lv == views(ls@),
                            lv == level_entries(hv[a as int]),
                            a < hs@.len(),
                            a < hv.len(),
                            str_at(hv[a as int], "unique_name"@) == h@,
                            hv == hierarchies(model@),
                            t == string_views(touched@).to_set(),
                            forall|b2: int| 0 <= b2 < b ==> !#[trigger] touched_entry(
                                hv[a as int],
                                lv[b2],
                                t,
                                h@,
                                n@,
                            ),
                        decreases ls@.len() - b,
                    {
                        let entry = &ls[b];
                        assert(lv[b as int] == entry@);
                        let entry_name = entry.text_field("name");
                        let entry_unique = entry.text_field("unique_name");
                        if entry_name == *n && contains_text(touched, &entry_unique) {
                            assert(string_views(touched@).contains(entry_unique@));
                            assert(touched_entry(hv[a as int], lv[b as int], t, h@, n@));
                            assert(level_touched(model@, t, h@, n@));
                            return true;
                        }
                        b = b + 1;
                    }
                },
                None => {},
            }
        }
        a = a + 1;
    }
    false
}

/// `min_depth` is a depth that some entry has, and no entry has a smaller one.
pub proof fn lemma_min_depth(ls: Seq<JsonV>)
    ensures
        match min_depth(ls) {
            Some(d) => (exists|k: int| 0 <= k < ls.len() && (#[trigger] ls[k]).at("depth"@).as_u64() == Some(d))
                && forall|k: int| 0 <= k < ls.len() ==> (#[trigger] ls[k]).at("depth"@).as_u64() is None
                || d <= ls[k].at("depth"@).as_u64()->0,
            None => forall|k: int| 0 <= k < ls.len() ==> (#[trigger] ls[k]).at("depth"@).as_u64() is None,
        },
    decreases ls.len(),
{
    if ls.len() > 0 {
        let init = ls.drop_last();
        lemma_min_depth(init);
        assert forall|k: int| 0 <= k < init.len() implies init[k] == ls[k] by {}
        match min_depth(init) {
            Some(a) => {
                let k0 = choose|k: int| 0 <= k < init.len() && (#[trigger] init[k]).at("depth"@).as_u64() == Some(a);
                assert(ls[k0] == init[k0]);
            },
            None => {},
        }
    }
}

/// The coarsest level of a hierarchy is the first of its levels at the
/// least depth that any of them has: where `coarsest_level` gives a name,
/// the first hierarchy with that unique name has a level entry of that name
/// at a depth no other entry goes under, and no earlier entry is at that
/// depth; where it gives none, there is no such hierarchy, its `levels` is
/// not an array, no entry has a depth, or the first entry at the least depth
/// has no textual name.
pub proof fn law_coarsest_is_least_depth(model: JsonV, hierarchy: Seq<char>)
    ensures
        match spec_coarsest_level(model, hierarchy) {
            Some(n) => find_hierarchy(model, hierarchy) matches Some(h) && h.at("levels"@).as_array()
                matches Some(ls) && exists|k: int|
                0 <= k < ls.len() && ls[k].at("name"@).as_str() == Some(n) && (#[trigger] ls[k]).at(
                    "depth"@,
                ).as_u64() is Some && (forall|j: int|
                    0 <= j < ls.len() ==> (#[trigger] ls[j]).at("depth"@).as_u64() is None
                        || ls[k].at("depth"@).as_u64()->0 <= ls[j].at("depth"@).as_u64()->0)
                    && (forall|j: int| 0 <= j < k ==> (#[trigger] ls[j]).at("depth"@).as_u64()
                    != ls[k].at("depth"@).as_u64()),
            None => match find_hierarchy(model, hierarchy) {
                None => true,
                Some(h) => match h.at("levels"@).as_array() {
                    None => true,
                    Some(ls) => (forall|j: int|
                        0 <= j < ls.len() ==> (#[trigger] ls[j]).at("depth"@).as_u64() is None) || exists|
                        k: int,
                    |
                        0 <= k < ls.len() && (#[trigger] ls[k]).at("depth"@).as_u64() == min_depth(ls)
                            && ls[k].at("name"@).as_str() is None && forall|j: int|
                            0 <= j < k ==> (#[trigger] ls[j]).at("depth"@).as_u64() != min_depth(ls),
                },
            },
        },
{
    if let Some(h) = find_hierarchy(model, hierarchy) {
        if let Some(ls) = h.at("levels"@).as_array() {
            lemma_min_depth(ls);
            if let Some(d) = min_depth(ls) {
                lemma_first_index(ls, depth_is(d));
                if let Some(k) = first_index(ls, depth_is(d)) {
                    assert(ls[k].at("depth"@).as_u64() == Some(d));
                } else {
                    let k0 = choose|k: int| 0 <= k < ls.len() && (#[trigger] ls[k]).at("depth"@).as_u64() == Some(d);
                    assert(depth_is(d)(ls[k0]));
                }
            }
        }
    }
}

} // verus!
