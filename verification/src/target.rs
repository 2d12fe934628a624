//! Targets: the selected files and folders.
use vstd::prelude::*;

use crate::error::{result_view, Error, ErrorView};
use crate::order::{lemma_in_order, lemma_same_bytes_same_text, sorted, Ranked};
use crate::ordered::OrderedMap;
use crate::path::{
    folder_of, law_folder, law_names_differ, law_own_name, law_store_in, law_stores_differ,
    lemma_path_order_strict, normal, path_order, store_in, Name, PartView, PathName, PathPart,
};
use crate::record::{RecordView, TagRecord};
use crate::store::{load_store, loaded, ReadView, StoreRead};
use crate::tags::lemma_take_to_set;

verus! {

/// A selected file or folder.
pub struct Target {
    /// Where it lies.
    pub absolute: PathName,
    /// How that path is shown.
    pub shown: String,
    /// The store that tells of it.
    pub store_path: PathName,
    /// Its name in the store.
    pub key: String,
}

/// What a `Target` is.
pub struct TargetView {
    pub absolute: Seq<PartView>,
    pub shown: Seq<char>,
    pub store: Seq<PartView>,
    pub key: Seq<char>,
}

impl View for Target {
    type V = TargetView;

    open spec fn view(&self) -> TargetView {
        TargetView {
            absolute: self.absolute@,
            shown: self.shown@,
            store: self.store_path@,
            key: self.key@,
        }
    }
}

/// What the targets in a vector are.
pub open spec fn target_views(v: Seq<Target>) -> Seq<TargetView> {
    Seq::new(v.len(), |i: int| v[i]@)
}

impl TargetView {
    /// The store is the one in the folder of the target, and the key is the name of the target.
    pub open spec fn well_placed(self) -> bool {
        &&& folder_of(self.absolute) is Some
        &&& self.store == store_in(folder_of(self.absolute)->0)
        &&& self.absolute.last() == normal(self.key)
    }
}

/// What the file system says of a selected path.
pub enum Found {
    /// There is nothing.
    Missing,
    /// It cannot be looked up.
    Unreadable,
    /// It lies here, and is shown so.
    At(PathName, String),
}

/// A selected path, how it is shown, and what the file system says of it.
pub struct PathProbe {
    pub shown: String,
    pub found: Found,
}

/// The target that a selected path leads to, or why it leads to none.
pub open spec fn located(probe: PathProbe) -> Result<TargetView, ErrorView> {
    match probe.found {
        Found::Missing => Err(ErrorView::PathMissing(probe.shown@)),
        Found::Unreadable => Err(ErrorView::CannotRead(probe.shown@)),
        Found::At(absolute, shown) => if folder_of(absolute@) is None {
            Err(ErrorView::FilesystemRoot(shown@))
        } else if absolute.own_name() is None {
            Err(ErrorView::NoFileName(shown@))
        } else {
            Ok(
                TargetView {
                    absolute: absolute@,
                    shown: shown@,
                    store: store_in(folder_of(absolute@)->0),
                    key: absolute.own_name()->0,
                },
            )
        },
    }
}

/// The first thing that is wrong with the selected paths.
pub open spec fn first_error(probes: Seq<PathProbe>) -> Option<ErrorView>
    decreases probes.len(),
{
    if probes.len() == 0 {
        None
    } else {
        match first_error(probes.drop_last()) {
            Some(e) => Some(e),
            None => match located(probes.last()) {
                Err(e) => Some(e),
                Ok(_) => None,
            },
        }
    }
}

/// The targets that the selected paths lead to, one for each.
pub open spec fn all_located(probes: Seq<PathProbe>) -> Seq<TargetView> {
    Seq::new(probes.len(), |i: int| located(probes[i])->Ok_0)
}

/// Where targets lie.
pub open spec fn paths_of(v: Seq<TargetView>) -> Seq<Seq<PartView>> {
    Seq::new(v.len(), |i: int| v[i].absolute)
}

/// A target is the first that lies where it lies.
pub open spec fn is_first(all: Seq<TargetView>, t: TargetView) -> bool {
    exists|i: int|
        0 <= i < all.len() && #[trigger] all[i] == t && forall|k: int|
            0 <= k < i ==> (#[trigger] all[k]).absolute != t.absolute
}

/// `out` holds, for each place where one of `all` lies, the first that lies there, and is sorted
/// by these places.
pub open spec fn sorted_without_repeats(all: Seq<TargetView>, out: Seq<TargetView>) -> bool {
    &&& sorted(paths_of(out), path_order())
    &&& paths_of(out).to_set() == paths_of(all).to_set()
    &&& forall|j: int| 0 <= j < out.len() ==> is_first(all, #[trigger] out[j])
}

/// Finds the target that a selected path leads to.
fn locate(probe: PathProbe) -> (r: Result<Target, Error>)
    ensures
        result_view(r) == located(probe),
{
    match probe.found {
        Found::Missing => Err(Error::PathMissing(probe.shown)),
        Found::Unreadable => Err(Error::CannotRead(probe.shown)),
        Found::At(absolute, shown) => {
            let folder = match absolute.folder() {
                Some(folder) => folder,
                None => {
                    return Err(Error::FilesystemRoot(shown));
                },
            };
            let key = match absolute.file_name() {
                Some(name) => name.clone(),
                None => {
                    return Err(Error::NoFileName(shown));
                },
            };
            let store_path = folder.store();
            Ok(Target { absolute, shown, store_path, key })
        },
    }
}

proof fn lemma_first_error(probes: Seq<PathProbe>, n: int)
    requires
        0 <= n <= probes.len(),
        first_error(probes.take(n)) is Some,
    ensures
        first_error(probes) == first_error(probes.take(n)),
    decreases probes.len() - n,
{
    if n < probes.len() {
        assert(probes.take(n + 1).drop_last() =~= probes.take(n));
        lemma_first_error(probes, n + 1);
    } else {
        assert(probes.take(n) =~= probes);
    }
}

/// Finds the targets that the selected paths lead to: each once, sorted by where they lie, and
/// each with the store in its own folder. The first path that leads to none is the reason why
/// there are no targets.
pub fn resolve_targets(probes: Vec<PathProbe>) -> (r: Result<Vec<Target>, Error>)
    ensures
        match first_error(probes@) {
            Some(e) => r is Err && r->Err_0@ == e,
            None => r is Ok && sorted_without_repeats(
                all_located(probes@),
                target_views(r->Ok_0@),
            ) && forall|j: int|
                0 <= j < r->Ok_0@.len() ==> (#[trigger] r->Ok_0@[j])@.well_placed(),
        },
{
    let ghost given = probes@;
    let ghost all = all_located(given);
    let mut rest = probes;
    let mut found: OrderedMap<PathName, Target> = OrderedMap::new();
    let ghost mut n: int = 0;
    assert(given.skip(0) =~= given);
    assert(given.take(0) =~= Seq::empty());
    assert(found@.dom() =~= paths_of(all.take(0)).to_set());
    while rest.len() > 0
        invariant
            0 <= n <= given.len(),
            given == probes@,
            all == all_located(given),
            rest@ == given.skip(n),
            first_error(given.take(n)) is None,
            found@.dom() == paths_of(all.take(n)).to_set(),
            forall|p: Seq<PartView>| #[trigger]
                found@.dom().contains(p) ==> found@[p]@.absolute == p && is_first(
                    all.take(n),
                    found@[p]@,
                ),
        decreases rest@.len(),
    {
        let probe = rest.remove(0);
        assert(probe == given[n]);
        assert(rest@ =~= given.skip(n + 1));
        assert(given.take(n + 1).drop_last() =~= given.take(n));
        assert(given.take(n + 1).last() == given[n]);
        let target = match locate(probe) {
            Ok(target) => target,
            Err(e) => {
                proof {
                    lemma_first_error(given, n + 1);
                }
                return Err(e);
            },
        };
        assert(all[n] == target@);
        let known = found.get(&target.absolute).is_some();
        let ghost before = found@;
        let ghost t = target@;
        if !known {
            let path = target.absolute.duplicate();
            found.insert(path, target);
        }
        proof {
            lemma_one_more(all, n);
            assert forall|p: Seq<PartView>| #[trigger] found@.dom().contains(p) implies found@[p]@
                .absolute == p && is_first(all.take(n + 1), found@[p]@) by {
                if before.dom().contains(p) {
                    lemma_is_first_extends(all, n, found@[p]@);
                } else {
                    lemma_is_first_new(all, n);
                }
            }
            assert(found@.dom() =~= paths_of(all.take(n + 1)).to_set());
            n = n + 1;
        }
    }
    proof {
        assert(n == given.len());
        assert(given.take(n) =~= given);
        assert(all.take(n) =~= all);
    }
    let ghost held = found@;
    let ghost order = found.in_key_order();
    let (_, targets) = found.into_parts();
    proof {
        let out = target_views(targets@);
        assert forall|j: int| 0 <= j < out.len() implies (#[trigger] out[j]).absolute == order[j]
            && is_first(all, out[j]) by {
            assert(targets@[j] == held[order[j]]);
            assert(order.to_set().contains(order[j]));
            assert(held.dom().contains(order[j]));
        }
        assert(paths_of(out) =~= order);
        assert forall|j: int| 0 <= j < targets@.len() implies (#[trigger] targets@[j])@
            .well_placed() by {
            law_targets_are_well_placed(given, out, j);
            assert(out[j] == targets@[j]@);
        }
    }
    Ok(targets)
}

proof fn lemma_one_more(all: Seq<TargetView>, n: int)
    requires
        0 <= n < all.len(),
    ensures
        paths_of(all.take(n + 1)).to_set() == paths_of(all.take(n)).to_set().insert(
            all[n].absolute,
        ),
{
    let p = paths_of(all);
    assert(paths_of(all.take(n + 1)) =~= p.take(n + 1));
    assert(paths_of(all.take(n)) =~= p.take(n));
    lemma_take_to_set(p, n);
}

proof fn lemma_is_first_extends(all: Seq<TargetView>, n: int, t: TargetView)
    requires
        0 <= n < all.len(),
        is_first(all.take(n), t),
    ensures
        is_first(all.take(n + 1), t),
{
    let a = all.take(n);
    let i = choose|i: int|
        0 <= i < a.len() && #[trigger] a[i] == t && forall|k: int|
            0 <= k < i ==> (#[trigger] a[k]).absolute != t.absolute;
    let b = all.take(n + 1);
    assert(b[i] == t);
    assert forall|k: int| 0 <= k < i implies (#[trigger] b[k]).absolute != t.absolute by {
        assert(b[k] == a[k]);
    }
}

proof fn lemma_is_first_new(all: Seq<TargetView>, n: int)
    requires
        0 <= n < all.len(),
        !paths_of(all.take(n)).to_set().contains(all[n].absolute),
    ensures
        is_first(all.take(n + 1), all[n]),
{
    let b = all.take(n + 1);
    assert(b[n] == all[n]);
    assert forall|k: int| 0 <= k < n implies (#[trigger] b[k]).absolute != all[n].absolute by {
        assert(paths_of(all.take(n))[k] == b[k].absolute);
        assert(paths_of(all.take(n)).contains(b[k].absolute));
    }
}

/// Refuses an empty selection.
pub fn require_targets<T>(targets: &[T]) -> (r: Result<(), Error>)
    ensures
        r is Err <==> targets@.len() == 0,
        r matches Err(e) ==> e@ == ErrorView::NoTargets,
{
    if targets.len() == 0 {
        Err(Error::NoTargets)
    } else {
        Ok(())
    }
}

/// What a store that was read knows of a thing.
pub open spec fn known_of(read: ReadView, key: Seq<char>) -> Result<RecordView, ErrorView> {
    match loaded(read) {
        Ok(store) => Ok(store.record(key)),
        Err(e) => Err(e),
    }
}

/// What is known of a target, by what came of reading its store.
pub fn read_record(target: &Target, read: StoreRead) -> (r: Result<TagRecord, Error>)
    ensures
        result_view(r) == known_of(read@, target.key@),
{
    match load_store(read) {
        Ok(store) => Ok(store.record(&target.key)),
        Err(e) => Err(e),
    }
}

proof fn lemma_same_places(
    all_a: Seq<TargetView>,
    out_a: Seq<TargetView>,
    all_b: Seq<TargetView>,
    out_b: Seq<TargetView>,
)
    requires
        sorted_without_repeats(all_a, out_a),
        sorted_without_repeats(all_b, out_b),
        paths_of(all_a).to_set() == paths_of(all_b).to_set(),
    ensures
        paths_of(out_a) == paths_of(out_b),
{
    lemma_path_order_strict();
    lemma_in_order(paths_of(out_a), path_order());
    lemma_in_order(paths_of(out_b), path_order());
}

/// However the paths of a selection are ordered or repeated, the targets lie at the same places,
/// in the same order, and have the same stores and the same names in them.
pub proof fn law_selection_order_free(
    probes_a: Seq<PathProbe>,
    out_a: Seq<TargetView>,
    probes_b: Seq<PathProbe>,
    out_b: Seq<TargetView>,
)
    requires
        first_error(probes_a) is None,
        first_error(probes_b) is None,
        sorted_without_repeats(all_located(probes_a), out_a),
        sorted_without_repeats(all_located(probes_b), out_b),
        paths_of(all_located(probes_a)).to_set() == paths_of(all_located(probes_b)).to_set(),
    ensures
        out_a.len() == out_b.len(),
        forall|j: int|
            0 <= j < out_a.len() ==> (#[trigger] out_a[j]).absolute == out_b[j].absolute
                && out_a[j].store == out_b[j].store && out_a[j].key == out_b[j].key,
{
    lemma_same_places(all_located(probes_a), out_a, all_located(probes_b), out_b);
    assert(paths_of(out_a).len() == paths_of(out_b).len());
    assert forall|j: int| 0 <= j < out_a.len() implies (#[trigger] out_a[j]).absolute
        == out_b[j].absolute && out_a[j].store == out_b[j].store && out_a[j].key
        == out_b[j].key by {
        assert(paths_of(out_a)[j] == out_a[j].absolute);
        assert(paths_of(out_b)[j] == out_b[j].absolute);
        law_targets_are_well_placed(probes_a, out_a, j);
        law_targets_are_well_placed(probes_b, out_b, j);
        lemma_same_bytes_same_text(out_a[j].key, out_b[j].key);
    }
}

/// The same selection always gives the same targets.
pub proof fn law_selection_determined(
    all: Seq<TargetView>,
    a: Seq<TargetView>,
    b: Seq<TargetView>,
)
    requires
        sorted_without_repeats(all, a),
        sorted_without_repeats(all, b),
    ensures
        a == b,
{
    lemma_same_places(all, a, all, b);
    assert(paths_of(a).len() == a.len());
    assert forall|j: int| 0 <= j < a.len() implies a[j] == b[j] by {
        assert(paths_of(a)[j] == a[j].absolute);
        assert(paths_of(b)[j] == b[j].absolute);
        let t = a[j];
        let u = b[j];
        assert(is_first(all, a[j]));
        assert(is_first(all, b[j]));
        let i = choose|i: int|
            0 <= i < all.len() && #[trigger] all[i] == t && forall|k: int|
                0 <= k < i ==> (#[trigger] all[k]).absolute != t.absolute;
        let k = choose|i: int|
            0 <= i < all.len() && #[trigger] all[i] == u && forall|k: int|
                0 <= k < i ==> (#[trigger] all[k]).absolute != u.absolute;
        assert(all[i].absolute == all[k].absolute);
    }
    assert(a =~= b);
}

/// Every target that a selected path leads to has its store in its own folder, under its own
/// name.
pub proof fn law_located_is_well_placed(probe: PathProbe)
    requires
        located(probe) is Ok,
    ensures
        located(probe)->Ok_0.well_placed(),
{
    match probe.found {
        Found::At(absolute, _) => {
            let n = absolute.parts@.len();
            assert(absolute@.last() == absolute.parts@[n - 1]@);
        },
        _ => {},
    }
}

proof fn lemma_no_error(probes: Seq<PathProbe>, i: int)
    requires
        first_error(probes) is None,
        0 <= i < probes.len(),
    ensures
        located(probes[i]) is Ok,
    decreases probes.len(),
{
    if i < probes.len() - 1 {
        assert(probes.drop_last()[i] == probes[i]);
        lemma_no_error(probes.drop_last(), i);
    }
}

/// Every target of a selection has its store in its own folder, under its own name.
pub proof fn law_targets_are_well_placed(probes: Seq<PathProbe>, out: Seq<TargetView>, j: int)
    requires
        first_error(probes) is None,
        sorted_without_repeats(all_located(probes), out),
        0 <= j < out.len(),
    ensures
        out[j].well_placed(),
{
    let all = all_located(probes);
    assert(is_first(all, out[j]));
    let i = choose|i: int|
        0 <= i < all.len() && #[trigger] all[i] == out[j] && forall|k: int|
            0 <= k < i ==> (#[trigger] all[k]).absolute != out[j].absolute;
    lemma_no_error(probes, i);
    law_located_is_well_placed(probes[i]);
}

/// Two targets with the same record lie in the same place.
pub proof fn law_records_are_not_shared(a: TargetView, b: TargetView)
    requires
        a.well_placed(),
        b.well_placed(),
        a.store == b.store,
        a.key == b.key,
    ensures
        a.absolute == b.absolute,
{
    law_stores_differ(folder_of(a.absolute)->0, folder_of(b.absolute)->0);
    assert(a.absolute =~= a.absolute.drop_last().push(a.absolute.last()));
    assert(b.absolute =~= b.absolute.drop_last().push(b.absolute.last()));
}

/// No two targets of a selection share a record.
pub proof fn law_targets_have_their_own_records(
    probes: Seq<PathProbe>,
    out: Seq<TargetView>,
    i: int,
    j: int,
)
    requires
        first_error(probes) is None,
        sorted_without_repeats(all_located(probes), out),
        0 <= i < j < out.len(),
    ensures
        out[i].store != out[j].store || out[i].key != out[j].key,
{
    law_targets_are_well_placed(probes, out, i);
    law_targets_are_well_placed(probes, out, j);
    if out[i].store == out[j].store && out[i].key == out[j].key {
        law_records_are_not_shared(out[i], out[j]);
        lemma_path_order_strict();
        assert(path_order()(paths_of(out)[i], paths_of(out)[j]));
    }
}

/// A target is what its fields hold.
pub proof fn law_target_fields(target: Target)
    ensures
        target@.absolute == target.absolute@,
        target@.shown == target.shown@,
        target@.store == target.store_path@,
        target@.key == target.key@,
{
}

/// Targets are taken one by one.
pub proof fn law_targets_one_by_one(targets: Seq<Target>)
    ensures
        target_views(targets).len() == targets.len(),
        forall|i: int| 0 <= i < targets.len() ==> #[trigger] target_views(targets)[i]
            == targets[i]@,
{
}

/// A selected path that is found and ends in a name that is a text leads to a target: it lies
/// there, is shown as it was found, has that name, and its store is `.categorax/tags.json` in the
/// folder that it lies in.
pub proof fn law_named_path_is_a_target(
    probe: PathProbe,
    path: PathName,
    shown: String,
    name: String,
)
    requires
        probe.found == Found::At(path, shown),
        path.parts@.len() > 0,
        path.parts@.last() == PathPart::Normal(Name::Text(name)),
    ensures
        located(probe) matches Ok(t) && t.absolute == path@ && t.shown == shown@ && t.key == name@
            && t.store == path@.drop_last().push(normal(".categorax"@)).push(
            normal("tags.json"@),
        ),
{
    law_folder(path);
    law_own_name(path, name);
    law_store_in(path@.drop_last());
    assert(store_in(path@.drop_last()) =~= path@.drop_last().push(normal(".categorax"@)).push(
        normal("tags.json"@),
    ));
}

/// A selected path leads to no target only where it is missing, cannot be looked up, lies in no
/// folder, or does not end in a name that is a text; and each is told by its own error, with the
/// path as it was selected or found.
pub proof fn law_why_a_path_is_no_target(probe: PathProbe)
    ensures
        probe.found is Missing ==> located(probe) == Err::<TargetView, ErrorView>(
            ErrorView::PathMissing(probe.shown@),
        ),
        probe.found is Unreadable ==> located(probe) == Err::<TargetView, ErrorView>(
            ErrorView::CannotRead(probe.shown@),
        ),
        probe.found matches Found::At(path, shown) ==> {
            &&& path.parts@.len() == 0 || path.parts@.last() is Root || path.parts@.last() is Prefix
                ==> located(probe) == Err::<TargetView, ErrorView>(
                ErrorView::FilesystemRoot(shown@),
            )
            &&& path.parts@.len() > 0 && (path.parts@.last() is Current || path.parts@.last() is Parent
                || path.parts@.last() matches PathPart::Normal(Name::Raw(_))) ==> located(probe)
                == Err::<TargetView, ErrorView>(ErrorView::NoFileName(shown@))
        },
{
    if let Found::At(path, _) = probe.found {
        law_folder(path);
    }
}

/// A selection fails exactly where one of its paths leads to no target, and for the reason of the
/// first such path.
pub proof fn law_first_wrong_path_is_the_reason(probes: Seq<PathProbe>)
    ensures
        first_error(probes) is None <==> forall|i: int|
            0 <= i < probes.len() ==> located(#[trigger] probes[i]) is Ok,
        first_error(probes) matches Some(e) ==> exists|i: int|
            0 <= i < probes.len() && located(#[trigger] probes[i]) == Err::<TargetView, ErrorView>(e)
                && forall|k: int| 0 <= k < i ==> located(#[trigger] probes[k]) is Ok,
    decreases probes.len(),
{
    if probes.len() > 0 {
        let fewer = probes.drop_last();
        let n = probes.len() - 1;
        law_first_wrong_path_is_the_reason(fewer);
        assert(probes[n] == probes.last());
        assert forall|i: int| 0 <= i < n implies #[trigger] probes[i] == fewer[i] by {}
        match first_error(fewer) {
            Some(e) => {
                let i = choose|i: int|
                    0 <= i < fewer.len() && located(#[trigger] fewer[i]) == Err::<
                        TargetView,
                        ErrorView,
                    >(e) && forall|k: int| 0 <= k < i ==> located(#[trigger] fewer[k]) is Ok;
                assert(probes[i] == fewer[i]);
                assert forall|k: int| 0 <= k < i implies located(#[trigger] probes[k]) is Ok by {
                    assert(probes[k] == fewer[k]);
                }
            },
            None => {
                assert forall|k: int| 0 <= k < n implies located(#[trigger] probes[k]) is Ok by {
                    assert(probes[k] == fewer[k]);
                }
                if first_error(probes) is Some {
                    assert(located(probes[n]) is Err);
                }
            },
        }
    }
}

/// Every selected path has its target in the result: one that lies where the path leads, with the
/// name that the path ends in.
pub proof fn law_every_path_has_its_target(
    probes: Seq<PathProbe>,
    out: Seq<TargetView>,
    i: int,
    path: PathName,
    shown: String,
    name: String,
)
    requires
        first_error(probes) is None,
        sorted_without_repeats(all_located(probes), out),
        0 <= i < probes.len(),
        probes[i].found == Found::At(path, shown),
        path.parts@.len() > 0,
        path.parts@.last() == PathPart::Normal(Name::Text(name)),
    ensures
        exists|j: int|
            0 <= j < out.len() && (#[trigger] out[j]).absolute == path@ && out[j].key == name@,
{
    let all = all_located(probes);
    law_named_path_is_a_target(probes[i], path, shown, name);
    assert(paths_of(all)[i] == path@);
    assert(paths_of(all).to_set().contains(path@));
    assert(paths_of(out).to_set().contains(path@));
    let j = paths_of(out).index_of(path@);
    assert(paths_of(out)[j] == path@);
    law_targets_are_well_placed(probes, out, j);
    assert(all[i].absolute.last() == normal(name@)) by {
        law_located_is_well_placed(probes[i]);
    }
    law_names_differ(out[j].key, name@);
}

/// Every target of a selection is the one that some selected path leads to.
pub proof fn law_every_target_was_selected(
    probes: Seq<PathProbe>,
    out: Seq<TargetView>,
    j: int,
)
    requires
        sorted_without_repeats(all_located(probes), out),
        0 <= j < out.len(),
    ensures
        exists|i: int|
            0 <= i < probes.len() && located(#[trigger] probes[i])->Ok_0 == out[j] && forall|k: int|
                0 <= k < i ==> located(#[trigger] probes[k])->Ok_0.absolute != out[j].absolute,
{
    let all = all_located(probes);
    assert(is_first(all, out[j]));
    let i = choose|i: int|
        0 <= i < all.len() && #[trigger] all[i] == out[j] && forall|k: int|
            0 <= k < i ==> (#[trigger] all[k]).absolute != out[j].absolute;
    assert(located(probes[i])->Ok_0 == out[j]);
    assert forall|k: int| 0 <= k < i implies located(#[trigger] probes[k])->Ok_0.absolute
        != out[j].absolute by {
        assert(all[k].absolute != out[j].absolute);
    }
}

/// The targets of a selection come in the order of their paths, and no two lie at the same one.
pub proof fn law_targets_are_sorted(
    probes: Seq<PathProbe>,
    out: Seq<TargetView>,
    i: int,
    j: int,
)
    requires
        sorted_without_repeats(all_located(probes), out),
        0 <= i < j < out.len(),
    ensures
        path_order()(out[i].absolute, out[j].absolute),
        out[i].absolute != out[j].absolute,
{
    lemma_path_order_strict();
    assert(path_order()(paths_of(out)[i], paths_of(out)[j]));
}

/// What is known of a target by what came of reading its store is the record under its name.
pub proof fn law_known_of(read: ReadView, key: Seq<char>)
    ensures
        loaded(read) matches Ok(store) ==> known_of(read, key) == Ok::<RecordView, ErrorView>(
            store.record(key),
        ),
        loaded(read) matches Err(e) ==> known_of(read, key) == Err::<RecordView, ErrorView>(e),
{
}

} // verus!
