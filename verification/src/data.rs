//! The value model: scalars, sequences and mappings, together with the
//! mathematical view that contracts and equality are stated over.
use vstd::prelude::*;
use crate::text::trim_of;

verus! {

broadcast use vstd::std_specs::vec::group_vec_axioms;

/// A parsed document value.
///
/// A mapping is held as a vector of key/value entries; the parser keeps its
/// keys unique, and `==` compares mappings as maps, so the order of the
/// entries never matters to equality.
#[derive(Debug)]
pub enum YAMLData {
    Scalar(String),
    Sequence(Vec<YAMLData>),
    Mapping(Vec<(String, YAMLData)>),
}

/// The mathematical model of a value: scalar text as a sequence of
/// characters, a sequence as a `Seq`, and a mapping as a `Map` from key text
/// to values, in which entries have no order.
pub enum DataView {
    Scalar(Seq<char>),
    Sequence(Seq<DataView>),
    Mapping(Map<Seq<char>, DataView>),
}

/// The views of a vector of values, in order.
pub open spec fn views_of_items(items: Seq<YAMLData>) -> Seq<DataView>
    decreases items,
{
    if items.len() == 0 {
        Seq::empty()
    } else {
        views_of_items(items.drop_last()).push(items.last()@)
    }
}

/// The map that a vector of entries denotes; a later entry with the same key
/// overwrites an earlier one.
pub open spec fn map_view_of(entries: Seq<(String, YAMLData)>) -> Map<Seq<char>, DataView>
    decreases entries,
{
    if entries.len() == 0 {
        Map::empty()
    } else {
        map_view_of(entries.drop_last()).insert(entries.last().0@, entries.last().1@)
    }
}

impl View for YAMLData {
    type V = DataView;

    open spec fn view(&self) -> DataView
        decreases self,
    {
        match self {
            YAMLData::Scalar(s) => DataView::Scalar(s@),
            YAMLData::Sequence(items) => DataView::Sequence(views_of_items(items@)),
            YAMLData::Mapping(entries) => DataView::Mapping(map_view_of(entries@)),
        }
    }
}

/// No two entries share a key.
pub open spec fn unique_keys(entries: Seq<(String, YAMLData)>) -> bool {
    forall|i: int, j: int|
        0 <= i < j < entries.len() ==> entries[i].0@ != entries[j].0@
}

/// Every entry has a non-empty, trimmed key and a well-formed value.
pub open spec fn wf_entries(entries: Seq<(String, YAMLData)>) -> bool
    decreases entries,
{
    if entries.len() == 0 {
        true
    } else {
        wf_entries(entries.drop_last()) && entries.last().0@.len() > 0 && trim_of(
            entries.last().0@,
        ) == entries.last().0@ && entries.last().1.wf()
    }
}

/// Every element is well formed.
pub open spec fn wf_items(items: Seq<YAMLData>) -> bool
    decreases items,
{
    if items.len() == 0 {
        true
    } else {
        wf_items(items.drop_last()) && items.last().wf()
    }
}

impl YAMLData {
    /// Well-formedness: throughout the tree, every mapping's keys are
    /// non-empty, trimmed and mutually distinct.
    pub open spec fn wf(&self) -> bool
        decreases self,
    {
        match self {
            YAMLData::Scalar(_) => true,
            YAMLData::Sequence(items) => wf_items(items@),
            YAMLData::Mapping(entries) => unique_keys(entries@) && wf_entries(entries@),
        }
    }
}

pub proof fn lemma_views_of_items(items: Seq<YAMLData>)
    ensures
        views_of_items(items).len() == items.len(),
        forall|i: int| 0 <= i < items.len() ==> views_of_items(items)[i] == items[i]@,
    decreases items,
{
    if items.len() > 0 {
        lemma_views_of_items(items.drop_last());
        assert(views_of_items(items) == views_of_items(items.drop_last()).push(
            items.last()@,
        ));
        assert(forall|i: int|
            0 <= i < items.len() - 1 ==> #[trigger] views_of_items(items)[i] == items[i]@);
        assert(views_of_items(items)[items.len() - 1] == items[items.len() - 1]@);
    }
}

/// A key is in the denoted map exactly when some entry holds it.
pub proof fn lemma_map_view_dom(entries: Seq<(String, YAMLData)>, k: Seq<char>)
    ensures
        map_view_of(entries).contains_key(k) <==> exists|i: int|
            0 <= i < entries.len() && entries[i].0@ == k,
    decreases entries,
{
    if entries.len() > 0 {
        lemma_map_view_dom(entries.drop_last(), k);
        assert(map_view_of(entries) == map_view_of(entries.drop_last()).insert(
            entries.last().0@,
            entries.last().1@,
        ));
        if entries.last().0@ == k {
            assert(entries[entries.len() - 1].0@ == k);
        } else {
            if map_view_of(entries).contains_key(k) {
                let i = choose|i: int|
                    0 <= i < entries.drop_last().len() && entries.drop_last()[i].0@ == k;
                assert(entries[i].0@ == k);
            }
            if exists|i: int| 0 <= i < entries.len() && entries[i].0@ == k {
                let i = choose|i: int| 0 <= i < entries.len() && entries[i].0@ == k;
                assert(i < entries.len() - 1);
                assert(entries.drop_last()[i].0@ == k);
            }
        }
    }
}

/// The denoted map takes each key to the value of the last entry that holds it.
pub proof fn lemma_map_view_at(entries: Seq<(String, YAMLData)>, i: int)
    requires
        0 <= i < entries.len(),
        forall|j: int| i < j < entries.len() ==> entries[j].0@ != entries[i].0@,
    ensures
        map_view_of(entries).contains_key(entries[i].0@),
        map_view_of(entries)[entries[i].0@] == entries[i].1@,
    decreases entries,
{
    lemma_map_view_dom(entries, entries[i].0@);
    assert(map_view_of(entries) == map_view_of(entries.drop_last()).insert(
        entries.last().0@,
        entries.last().1@,
    ));
    if i < entries.len() - 1 {
        assert(entries.drop_last()[i] == entries[i]);
        assert(forall|j: int|
            i < j < entries.drop_last().len() ==> #[trigger] entries.drop_last()[j].0@
                != entries.drop_last()[i].0@);
        lemma_map_view_at(entries.drop_last(), i);
        assert(entries[entries.len() - 1].0@ != entries[i].0@);
    } else {
        assert(entries.last() == entries[i]);
    }
}

/// The index of the last entry that holds `key`, if any.
fn lookup_last(entries: &Vec<(String, YAMLData)>, key: &String) -> (r: Option<usize>)
    ensures
        match r {
            Some(idx) => idx < entries@.len() && entries@[idx as int].0@ == key@ && (forall|j: int|
                idx < j < entries@.len() ==> entries@[j].0@ != key@),
            None => forall|j: int| 0 <= j < entries@.len() ==> entries@[j].0@ != key@,
        },
{
    let mut j: usize = entries.len();
    while j > 0
        invariant
            j <= entries@.len(),
            forall|m: int| j <= m < entries@.len() ==> entries@[m].0@ != key@,
        decreases j,
    {
        j = j - 1;
        if entries[j].0 == *key {
            return Some(j);
        }
    }
    None
}

/// Decides whether two values denote the same model: scalars by their text,
/// sequences element by element, and mappings as maps, so that the order of
/// mapping entries does not matter.
#[verifier::loop_isolation(false)]
fn yaml_eq(a: &YAMLData, b: &YAMLData) -> (r: bool)
    ensures
        r == (a@ == b@),
    decreases a,
{
    match (a, b) {
        (YAMLData::Scalar(x), YAMLData::Scalar(y)) => {
            proof {
                assert(a@ == DataView::Scalar(x@));
                assert(b@ == DataView::Scalar(y@));
            }
            *x == *y
        },
        (YAMLData::Sequence(xs), YAMLData::Sequence(ys)) => {
            proof {
                lemma_views_of_items(xs@);
                lemma_views_of_items(ys@);
            }
            if xs.len() != ys.len() {
                return false;
            }
            let mut i: usize = 0;
            while i < xs.len()
                invariant
                    i <= xs@.len(),
                    xs@.len() == ys@.len(),
                    views_of_items(xs@).len() == xs@.len(),
                    views_of_items(ys@).len() == ys@.len(),
                    forall|m: int| 0 <= m < xs@.len() ==> views_of_items(xs@)[m] == xs@[m]@,
                    forall|m: int| 0 <= m < ys@.len() ==> views_of_items(ys@)[m] == ys@[m]@,
                    forall|m: int| 0 <= m < i ==> xs@[m]@ == ys@[m]@,
                    a@ == DataView::Sequence(views_of_items(xs@)),
                    b@ == DataView::Sequence(views_of_items(ys@)),
                decreases xs@.len() - i,
            {
                proof {
                    assert(decreases_to!(*a => *xs));
                    assert(decreases_to!(*xs => xs@));
                    assert(decreases_to!(xs@ => xs@[i as int]));
                }
                if !yaml_eq(&xs[i], &ys[i]) {
                    proof {
                        assert(views_of_items(xs@)[i as int] != views_of_items(ys@)[i as int]);
                    }
                    return false;
                }
                i = i + 1;
            }
            proof {
                assert(views_of_items(xs@) =~= views_of_items(ys@));
            }
            true
        },
        (YAMLData::Mapping(xs), YAMLData::Mapping(ys)) => {
            proof {
                assert(a@ == DataView::Mapping(map_view_of(xs@)));
                assert(b@ == DataView::Mapping(map_view_of(ys@)));
            }
            let mut i: usize = 0;
            while i < xs.len()
                invariant
                    i <= xs@.len(),
                    a@ == DataView::Mapping(map_view_of(xs@)),
                    b@ == DataView::Mapping(map_view_of(ys@)),
                    forall|m: int|
                        0 <= m < i ==> map_view_of(ys@).contains_key(#[trigger] xs@[m].0@)
                            && map_view_of(ys@)[xs@[m].0@] == map_view_of(xs@)[xs@[m].0@],
                decreases xs@.len() - i,
            {
                let key = &xs[i].0;
                proof {
                    lemma_map_view_dom(xs@, key@);
                    lemma_map_view_dom(ys@, key@);
                }
                match lookup_last(ys, key) {
                    None => {
                        proof {
                            assert(map_view_of(xs@).contains_key(key@));
                            assert(!map_view_of(ys@).contains_key(key@));
                        }
                        return false;
                    },
                    Some(jy) => {
                        let jx = match lookup_last(xs, key) {
                            Some(jx) => jx,
                            None => {
                                proof {
                                    assert(xs@[i as int].0@ == key@);
                                    assert(false);
                                }
                                0
                            },
                        };
                        proof {
                            lemma_map_view_at(xs@, jx as int);
                            lemma_map_view_at(ys@, jy as int);
                        }
                        proof {
                            assert(decreases_to!(*a => *xs));
                            assert(decreases_to!(*xs => xs@));
                            assert(decreases_to!(xs@ => xs@[jx as int]));
                            assert(decreases_to!(xs@[jx as int] => xs@[jx as int].1));
                        }
                        if !yaml_eq(&xs[jx].1, &ys[jy].1) {
                            proof {
                                assert(map_view_of(xs@)[key@] != map_view_of(ys@)[key@]);
                            }
                            return false;
                        }
                    },
                }
                i = i + 1;
            }
            let mut j: usize = 0;
            while j < ys.len()
                invariant
                    j <= ys@.len(),
                    a@ == DataView::Mapping(map_view_of(xs@)),
                    b@ == DataView::Mapping(map_view_of(ys@)),
                    forall|m: int|
                        0 <= m < xs@.len() ==> map_view_of(ys@).contains_key(#[trigger] xs@[m].0@)
                            && map_view_of(ys@)[xs@[m].0@] == map_view_of(xs@)[xs@[m].0@],
                    forall|m: int| 0 <= m < j ==> map_view_of(xs@).contains_key(#[trigger] ys@[m].0@),
                decreases ys@.len() - j,
            {
                let key = &ys[j].0;
                proof {
                    lemma_map_view_dom(xs@, key@);
                    lemma_map_view_dom(ys@, key@);
                }
                if lookup_last(xs, key).is_none() {
                    proof {
                        assert(map_view_of(ys@).contains_key(key@));
                        assert(!map_view_of(xs@).contains_key(key@));
                    }
                    return false;
                }
                j = j + 1;
            }
            proof {
                assert forall|k: Seq<char>|
                    map_view_of(xs@).dom().contains(k) == map_view_of(ys@).dom().contains(k) by {
                    lemma_map_view_dom(xs@, k);
                    lemma_map_view_dom(ys@, k);
                    if map_view_of(xs@).contains_key(k) {
                        let m = choose|m: int| 0 <= m < xs@.len() && xs@[m].0@ == k;
                        assert(map_view_of(ys@).contains_key(xs@[m].0@));
                    }
                    if map_view_of(ys@).contains_key(k) {
                        let m = choose|m: int| 0 <= m < ys@.len() && ys@[m].0@ == k;
                        assert(map_view_of(xs@).contains_key(ys@[m].0@));
                    }
                };
                assert(map_view_of(xs@).dom() =~= map_view_of(ys@).dom());
                assert forall|k: Seq<char>| map_view_of(xs@).dom().contains(k) implies map_view_of(
                    xs@,
                )[k] == map_view_of(ys@)[k] by {
                    lemma_map_view_dom(xs@, k);
                    let m = choose|m: int| 0 <= m < xs@.len() && xs@[m].0@ == k;
                    assert(map_view_of(ys@)[xs@[m].0@] == map_view_of(xs@)[xs@[m].0@]);
                };
                assert(map_view_of(xs@) =~= map_view_of(ys@));
            }
            true
        },
        _ => {
            proof {
                match (a, b) {
                    (YAMLData::Scalar(x), _) => assert(a@ is Scalar),
                    (YAMLData::Sequence(x), _) => assert(a@ is Sequence),
                    (YAMLData::Mapping(x), _) => assert(a@ is Mapping),
                }
                match (a, b) {
                    (_, YAMLData::Scalar(y)) => assert(b@ is Scalar),
                    (_, YAMLData::Sequence(y)) => assert(b@ is Sequence),
                    (_, YAMLData::Mapping(y)) => assert(b@ is Mapping),
                }
            }
            false
        },
    }
}

impl PartialEq for YAMLData {
    /// Structural equality of the models: mapping entry order is ignored.
    fn eq(&self, other: &Self) -> (r: bool) {
        yaml_eq(self, other)
    }
}

impl vstd::std_specs::cmp::PartialEqSpecImpl for YAMLData {
    open spec fn obeys_eq_spec() -> bool {
        true
    }

    open spec fn eq_spec(&self, other: &Self) -> bool {
        self@ == other@
    }
}

} // verus!
