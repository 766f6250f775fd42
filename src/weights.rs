//! Feature naming for the exponential factor model, the book-keeping of the
//! weight manager's delta overlay, and the checks made on a weight file.
use crate::graph::PropositionFactor;
use crate::objects::{implication_text, ImplicationFactor};
use crate::text::views;
use vstd::prelude::*;

verus! {

/// The two classes of a factor: false (0) and true (1).
pub const CLASS_LABELS: [usize; 2] = [0, 1];

/// `-` for class 0, `+` otherwise.
pub open spec fn sign_text(class_label: usize) -> Seq<char> {
    if class_label == 0 {
        "-"@
    } else {
        "+"@
    }
}

/// Name of the feature valued by a premise's probability.
pub open spec fn positive_text(feature: Seq<char>, class_label: usize) -> Seq<char> {
    "+>"@ + sign_text(class_label) + " "@ + feature
}

/// Name of the feature valued by one minus a premise's probability.
pub open spec fn negative_text(feature: Seq<char>, class_label: usize) -> Seq<char> {
    "->"@ + sign_text(class_label) + " "@ + feature
}

fn sign_char(value: usize) -> (r: String)
    ensures
        r@ == sign_text(value),
{
    if value == 0 {
        String::from_str("-")
    } else {
        String::from_str("+")
    }
}

pub fn positive_feature(feature: &str, class_label: usize) -> (r: String)
    ensures
        r@ == positive_text(feature@, class_label),
{
    String::from_str("+>").concat(sign_char(class_label).as_str()).concat(" ").concat(feature)
}

pub fn negative_feature(feature: &str, class_label: usize) -> (r: String)
    ensures
        r@ == negative_text(feature@, class_label),
{
    String::from_str("->").concat(sign_char(class_label).as_str()).concat(" ").concat(feature)
}

/// For one class, the positive and negative feature names of each factor, in order.
pub fn factor_feature_names(factors: &Vec<PropositionFactor>, class_label: usize) -> (r: Vec<
    (String, String),
>)
    ensures
        r@.len() == factors@.len(),
        forall|i: int|
            0 <= i < r@.len() ==> {
                let key = implication_text(
                    factors@[i].inference@.premise,
                    factors@[i].inference@.conclusion,
                    factors@[i].inference@.maps,
                );
                &&& (#[trigger] r@[i]).0@ == positive_text(key, class_label)
                &&& r@[i].1@ == negative_text(key, class_label)
            },
{
    let mut out: Vec<(String, String)> = Vec::new();
    let mut i: usize = 0;
    while i < factors.len()
        invariant
            i <= factors@.len(),
            out@.len() == i,
            forall|k: int|
                0 <= k < i ==> {
                    let key = implication_text(
                        factors@[k].inference@.premise,
                        factors@[k].inference@.conclusion,
                        factors@[k].inference@.maps,
                    );
                    &&& (#[trigger] out@[k]).0@ == positive_text(key, class_label)
                    &&& out@[k].1@ == negative_text(key, class_label)
                },
        decreases factors@.len() - i,
    {
        let key = factors[i].inference.unique_key();
        out.push((positive_feature(key.as_str(), class_label), negative_feature(key.as_str(), class_label)));
        i = i + 1;
    }
    out
}

/// The base weights of a namespace, and the features that have been named so far.
pub struct ExponentialWeights {
    pub namespace: String,
    pub known_features: Vec<String>,
}

impl ExponentialWeights {
    /// The key under which the weights of a namespace are stored.
    pub const WEIGHTS_KEY: &'static str = "weights";

    pub fn new(namespace: String) -> (r: Self)
        ensures
            r.namespace == namespace,
            r.known_features@.len() == 0,
    {
        ExponentialWeights { namespace, known_features: Vec::new() }
    }

    /// Adds a feature name to the known ones unless it is there.
    fn remember(&mut self, feature: String)
        ensures
            final(self).namespace == old(self).namespace,
            forall|x: Seq<char>|
                views(final(self).known_features@).contains(x) <==> views(
                    old(self).known_features@,
                ).contains(x) || x == feature@,
    {
        let present = crate::ops::contains_string(&self.known_features, &feature);
        if !present {
            let ghost before = views(self.known_features@);
            let ghost f = feature@;
            self.known_features.push(feature);
            assert(views(self.known_features@) =~= before.push(f));
            assert forall|x: Seq<char>| views(self.known_features@).contains(x) <==> before.contains(
                x,
            ) || x == f by {
                if views(self.known_features@).contains(x) {
                    let k = choose|k: int|
                        0 <= k < views(self.known_features@).len() && views(
                            self.known_features@,
                        )[k] == x;
                    if k < before.len() {
                        assert(before[k] == x);
                    }
                }
                if before.contains(x) {
                    let k = choose|k: int| 0 <= k < before.len() && before[k] == x;
                    assert(views(self.known_features@)[k] == x);
                }
                if x == f {
                    assert(views(self.known_features@)[before.len() as int] == x);
                }
            }
        }
    }

    /// Names the four features of a rule, positive then negative for class 0,
    /// then for class 1, and records them as known. The caller stores an
    /// initial weight under each returned name.
    pub fn initialize_weights(&mut self, implication: &ImplicationFactor) -> (r: Vec<String>)
        ensures
            final(self).namespace == old(self).namespace,
            ({
                let key = implication_text(
                    implication@.premise,
                    implication@.conclusion,
                    implication@.maps,
                );
                views(r@) == seq![
                    positive_text(key, 0),
                    negative_text(key, 0),
                    positive_text(key, 1),
                    negative_text(key, 1),
                ]
            }),
            forall|x: Seq<char>|
                views(final(self).known_features@).contains(x) <==> views(
                    old(self).known_features@,
                ).contains(x) || views(r@).contains(x),
    {
        let feature = implication.unique_key();
        let pos0 = positive_feature(feature.as_str(), 0);
        let neg0 = negative_feature(feature.as_str(), 0);
        let pos1 = positive_feature(feature.as_str(), 1);
        let neg1 = negative_feature(feature.as_str(), 1);
        let ghost start = views(self.known_features@);
        self.remember(pos0.clone());
        self.remember(neg0.clone());
        self.remember(pos1.clone());
        self.remember(neg1.clone());
        let r = vec![pos0, neg0, pos1, neg1];
        assert(views(r@) =~= seq![pos0@, neg0@, pos1@, neg1@]);
        assert forall|x: Seq<char>| views(self.known_features@).contains(x) <==> start.contains(x)
            || views(r@).contains(x) by {
            if x == pos0@ {
                assert(views(r@)[0] == x);
            }
            if x == neg0@ {
                assert(views(r@)[1] == x);
            }
            if x == pos1@ {
                assert(views(r@)[2] == x);
            }
            if x == neg1@ {
                assert(views(r@)[3] == x);
            }
        }
        r
    }
}

/// What starts a consolidation of the delta overlay.
#[derive(Debug, Clone, Copy, PartialEq, Eq, Structural)]
pub enum ConsolidationTrigger {
    DeltaSizeThreshold,
    TimeBasedSchedule,
    UpdateCountThreshold,
    MemoryPressure,
    Manual,
}

/// What a consolidation did.
#[derive(Debug, Clone, Copy, PartialEq, Eq, Structural)]
pub struct ConsolidationResult {
    pub trigger: ConsolidationTrigger,
    pub features_consolidated: usize,
    pub hot_features_kept: usize,
    pub duration_ms: u128,
}

/// The features a consolidation merges into the base weights and those it keeps
/// in the overlay.
pub struct ConsolidationPlan {
    pub merge: Vec<String>,
    pub keep: Vec<String>,
}

impl ConsolidationResult {
    pub fn new(trigger: ConsolidationTrigger, plan: &ConsolidationPlan, duration_ms: u128) -> (r:
        Self)
        ensures
            r.trigger == trigger,
            r.features_consolidated == plan.merge@.len(),
            r.hot_features_kept == plan.keep@.len(),
            r.duration_ms == duration_ms,
    {
        ConsolidationResult {
            trigger,
            features_consolidated: plan.merge.len(),
            hot_features_kept: plan.keep.len(),
            duration_ms,
        }
    }
}

/// A feature is hot when it has been updated more than `threshold` times.
pub open spec fn is_hot(entry: DeltaEntry, threshold: u32) -> bool {
    entry.update_count > threshold
}

/// The entries that are hot, in order.
pub open spec fn hot_entries(s: Seq<DeltaEntry>, threshold: u32) -> Seq<DeltaEntry>
    decreases s.len(),
{
    if s.len() == 0 {
        Seq::empty()
    } else {
        hot_entries(s.drop_last(), threshold) + if is_hot(s.last(), threshold) {
            seq![s.last()]
        } else {
            Seq::empty()
        }
    }
}

/// The names of the entries that are not hot, in order.
pub open spec fn cold_names(s: Seq<DeltaEntry>, threshold: u32) -> Seq<Seq<char>>
    decreases s.len(),
{
    if s.len() == 0 {
        Seq::empty()
    } else {
        cold_names(s.drop_last(), threshold) + if is_hot(s.last(), threshold) {
            Seq::empty()
        } else {
            seq![s.last().feature@]
        }
    }
}

pub open spec fn entry_names(s: Seq<DeltaEntry>) -> Seq<Seq<char>> {
    s.map_values(|e: DeltaEntry| e.feature@)
}

/// Names are pairwise distinct.
pub open spec fn distinct_names(s: Seq<DeltaEntry>) -> bool {
    forall|i: int, j: int| 0 <= i < s.len() && 0 <= j < s.len() && i != j ==> s[i].feature@ != s[j].feature@
}

/// A count after one more update, held at the largest `u32`.
pub open spec fn bumped(c: u32) -> u32 {
    if c < u32::MAX {
        (c + 1) as u32
    } else {
        u32::MAX
    }
}

/// One feature of the delta overlay: how often and when (milliseconds since
/// the Unix epoch) it was last updated.
pub struct DeltaEntry {
    pub feature: String,
    pub update_count: u32,
    pub last_updated: i64,
}

impl DeltaEntry {
    pub fn duplicate(&self) -> (r: Self)
        ensures
            r == *self,
    {
        DeltaEntry {
            feature: self.feature.clone(),
            update_count: self.update_count,
            last_updated: self.last_updated,
        }
    }
}

/// `new` is `old` after one more update of `feature` at time `now`: its entry
/// has its count bumped and its time set, or a new entry with count 1 is
/// appended.
pub open spec fn updated(old: Seq<DeltaEntry>, new: Seq<DeltaEntry>, feature: String, now: i64) -> bool {
    ||| exists|i: int|
        0 <= i < old.len() && old[i].feature@ == feature@ && new == old.update(
            i,
            DeltaEntry {
                feature: old[i].feature,
                update_count: bumped(old[i].update_count),
                last_updated: now,
            },
        )
    ||| (forall|i: int| 0 <= i < old.len() ==> old[i].feature@ != feature@) && new == old.push(
        DeltaEntry { feature, update_count: 1u32, last_updated: now },
    )
}

/// The names of the entries older than `max_age` at time `now`, in order.
pub open spec fn expired_names(s: Seq<DeltaEntry>, now: i64, max_age: i64) -> Seq<Seq<char>>
    decreases s.len(),
{
    if s.len() == 0 {
        Seq::empty()
    } else {
        expired_names(s.drop_last(), now, max_age) + if is_expired(s.last(), now, max_age) {
            seq![s.last().feature@]
        } else {
            Seq::empty()
        }
    }
}

/// An entry is older than `max_age` at time `now`.
pub open spec fn is_expired(entry: DeltaEntry, now: i64, max_age: i64) -> bool {
    entry.last_updated + max_age < now
}

/// The update counts and times of the features in the delta overlay, one entry per feature.
pub struct DeltaLedger {
    pub entries: Vec<DeltaEntry>,
}

impl DeltaLedger {
    pub open spec fn well_formed(&self) -> bool {
        distinct_names(self.entries@)
    }

    pub fn new() -> (r: Self)
        ensures
            r.well_formed(),
            r.entries@.len() == 0,
    {
        DeltaLedger { entries: Vec::new() }
    }

    /// Number of features in the overlay.
    pub fn size(&self) -> (r: usize)
        ensures
            r == self.entries@.len(),
    {
        self.entries.len()
    }

    /// Counts one more update of `feature` at time `now`: its count goes up
    /// by one (and stays at the largest `u32`), or it enters with count 1.
    /// Either way its last update becomes `now`.
    pub fn record_update(&mut self, feature: &String, now: i64)
        requires
            old(self).well_formed(),
        ensures
            final(self).well_formed(),
            updated(old(self).entries@, final(self).entries@, *feature, now),
    {
        let mut i: usize = 0;
        while i < self.entries.len()
            invariant
                i <= self.entries@.len(),
                self.entries@ == old(self).entries@,
                distinct_names(self.entries@),
                forall|k: int| 0 <= k < i ==> self.entries@[k].feature@ != feature@,
            decreases self.entries@.len() - i,
        {
            if self.entries[i].feature == *feature {
                let c = self.entries[i].update_count;
                let n = if c < u32::MAX {
                    c + 1
                } else {
                    c
                };
                let name = self.entries[i].feature.clone();
                let ghost before = self.entries@;
                self.entries.set(i, DeltaEntry { feature: name, update_count: n, last_updated: now });
                assert(self.entries@ == before.update(
                    i as int,
                    DeltaEntry { feature: before[i as int].feature, update_count: bumped(c), last_updated: now },
                ));
                assert(distinct_names(self.entries@)) by {
                    assert forall|a: int, b: int|
                        0 <= a < self.entries@.len() && 0 <= b < self.entries@.len() && a != b implies self.entries@[a].feature@
                        != self.entries@[b].feature@ by {
                        assert(before[a].feature@ != before[b].feature@);
                    }
                }
                return;
            }
            i = i + 1;
        }
        let ghost before = self.entries@;
        self.entries.push(DeltaEntry { feature: feature.clone(), update_count: 1, last_updated: now });
        assert(distinct_names(self.entries@)) by {
            assert forall|a: int, b: int|
                0 <= a < self.entries@.len() && 0 <= b < self.entries@.len() && a != b implies self.entries@[a].feature@
                != self.entries@[b].feature@ by {
                if a < before.len() && b < before.len() {
                    assert(before[a].feature@ != before[b].feature@);
                }
            }
        }
    }

    /// The update count of `feature`, if it is in the overlay.
    pub fn update_count(&self, feature: &String) -> (r: Option<u32>)
        requires
            self.well_formed(),
        ensures
            r matches Some(c) ==> exists|i: int|
                0 <= i < self.entries@.len() && self.entries@[i].feature@ == feature@ && #[trigger] self.entries@[i].update_count
                    == c,
            r is None ==> forall|i: int|
                0 <= i < self.entries@.len() ==> #[trigger] self.entries@[i].feature@ != feature@,
    {
        let mut i: usize = 0;
        while i < self.entries.len()
            invariant
                i <= self.entries@.len(),
                forall|k: int| 0 <= k < i ==> #[trigger] self.entries@[k].feature@ != feature@,
            decreases self.entries@.len() - i,
        {
            if self.entries[i].feature == *feature {
                return Some(self.entries[i].update_count);
            }
            i = i + 1;
        }
        None
    }

    /// The features updated more than `update_threshold` times, in order.
    pub fn get_hot_features(&self, update_threshold: u32) -> (r: Vec<String>)
        ensures
            views(r@) == entry_names(hot_entries(self.entries@, update_threshold)),
    {
        let ghost all = self.entries@;
        let mut out: Vec<String> = Vec::new();
        let mut i: usize = 0;
        assert(all.take(0) =~= Seq::<DeltaEntry>::empty());
        assert(views(out@) =~= entry_names(hot_entries(all.take(0), update_threshold)));
        while i < self.entries.len()
            invariant
                i <= self.entries@.len(),
                all == self.entries@,
                views(out@) == entry_names(hot_entries(all.take(i as int), update_threshold)),
            decreases self.entries@.len() - i,
        {
            assert(all.take(i + 1).drop_last() =~= all.take(i as int));
            assert(all.take(i + 1).last() == all[i as int]);
            let ghost before = views(out@);
            let ghost hb = hot_entries(all.take(i as int), update_threshold);
            if self.entries[i].update_count > update_threshold {
                out.push(self.entries[i].feature.clone());
                assert(views(out@) =~= before.push(all[i as int].feature@));
                assert(entry_names(hb + seq![all[i as int]]) =~= entry_names(hb).push(all[i as int].feature@));
            } else {
                assert(hb + Seq::<DeltaEntry>::empty() =~= hb);
            }
            i = i + 1;
        }
        assert(all.take(all.len() as int) =~= all);
        out
    }

    /// Removes the listed features from the overlay.
    pub fn clear_features(&mut self, features: &Vec<String>)
        requires
            old(self).well_formed(),
        ensures
            final(self).well_formed(),
            forall|i: int|
                0 <= i < final(self).entries@.len() ==> old(self).entries@.contains(
                    #[trigger] final(self).entries@[i],
                ) && !views(features@).contains(final(self).entries@[i].feature@),
            forall|i: int|
                0 <= i < old(self).entries@.len() && !views(features@).contains(
                    #[trigger] old(self).entries@[i].feature@,
                ) ==> final(self).entries@.contains(old(self).entries@[i]),
    {
        let ghost all = self.entries@;
        let ghost mut src: Seq<int> = Seq::empty();
        let mut kept: Vec<DeltaEntry> = Vec::new();
        let mut i: usize = 0;
        while i < self.entries.len()
            invariant
                i <= self.entries@.len(),
                all == self.entries@,
                distinct_names(all),
                src.len() == kept@.len(),
                forall|k: int|
                    0 <= k < kept@.len() ==> 0 <= #[trigger] src[k] < i && all[src[k]] == kept@[k]
                        && !views(features@).contains(kept@[k].feature@),
                forall|k: int, m: int| 0 <= k < m < kept@.len() ==> src[k] < src[m],
                forall|j: int|
                    0 <= j < i && !views(features@).contains(#[trigger] all[j].feature@) ==> kept@.contains(
                        all[j],
                    ),
            decreases self.entries@.len() - i,
        {
            let drop = crate::ops::contains_string(features, &self.entries[i].feature);
            if !drop {
                let ghost before = kept@;
                kept.push(self.entries[i].duplicate());
                proof {
                    src = src.push(i as int);
                    assert(kept@[before.len() as int] == all[i as int]);
                    assert forall|j: int|
                        0 <= j < i + 1 && !views(features@).contains(#[trigger] all[j].feature@) implies kept@.contains(
                        all[j],
                    ) by {
                        if j < i {
                            let m = choose|m: int| 0 <= m < before.len() && before[m] == all[j];
                            assert(kept@[m] == all[j]);
                        } else {
                            assert(kept@[before.len() as int] == all[j]);
                        }
                    }
                }
            }
            i = i + 1;
        }
        proof {
            assert forall|a: int, b: int|
                0 <= a < kept@.len() && 0 <= b < kept@.len() && a != b implies kept@[a].feature@
                != kept@[b].feature@ by {
                assert(src[a] != src[b]) by {
                    if a < b {
                        assert(src[a] < src[b]);
                    } else {
                        assert(src[b] < src[a]);
                    }
                }
                assert(all[src[a]] == kept@[a]);
                assert(all[src[b]] == kept@[b]);
            }
            assert forall|k: int| 0 <= k < kept@.len() implies all.contains(#[trigger] kept@[k])
                && !views(features@).contains(kept@[k].feature@) by {
                assert(all[src[k]] == kept@[k]);
            }
        }
        self.entries = kept;
    }

    /// The features last updated more than `max_age` milliseconds before
    /// `now`, in order.
    pub fn get_old_features(&self, now: i64, max_age: i64) -> (r: Vec<String>)
        ensures
            views(r@) == expired_names(self.entries@, now, max_age),
    {
        let ghost all = self.entries@;
        let mut out: Vec<String> = Vec::new();
        let mut i: usize = 0;
        assert(all.take(0) =~= Seq::<DeltaEntry>::empty());
        assert(views(out@) =~= expired_names(all.take(0), now, max_age));
        while i < self.entries.len()
            invariant
                i <= self.entries@.len(),
                all == self.entries@,
                views(out@) == expired_names(all.take(i as int), now, max_age),
            decreases self.entries@.len() - i,
        {
            assert(all.take(i + 1).drop_last() =~= all.take(i as int));
            assert(all.take(i + 1).last() == all[i as int]);
            let ghost before = views(out@);
            let e = &self.entries[i];
            if (e.last_updated as i128) + (max_age as i128) < (now as i128) {
                out.push(e.feature.clone());
                assert(views(out@) =~= before + seq![all[i as int].feature@]);
            } else {
                assert(views(out@) =~= before + Seq::<Seq<char>>::empty());
            }
            i = i + 1;
        }
        assert(all.take(all.len() as int) =~= all);
        out
    }

    /// Whether a consolidation is due at time `now`: the overlay holds more
    /// than `max_delta_size` features, or some feature was last updated more
    /// than `max_age` milliseconds ago.
    pub fn should_consolidate(&self, max_delta_size: usize, now: i64, max_age: i64) -> (r: bool)
        ensures
            r == (self.entries@.len() > max_delta_size || expired_names(
                self.entries@,
                now,
                max_age,
            ).len() > 0),
    {
        self.entries.len() > max_delta_size || self.get_old_features(now, max_age).len() > 0
    }

    /// Removes the features updated at most `hot_threshold` times, which are
    /// to be merged into the base weights, and keeps the hot ones.
    pub fn consolidate(&mut self, hot_threshold: u32) -> (r: ConsolidationPlan)
        requires
            old(self).well_formed(),
        ensures
            final(self).well_formed(),
            final(self).entries@ == hot_entries(old(self).entries@, hot_threshold),
            views(r.merge@) == cold_names(old(self).entries@, hot_threshold),
            views(r.keep@) == entry_names(final(self).entries@),
    {
        let ghost all = self.entries@;
        let mut hot: Vec<DeltaEntry> = Vec::new();
        let mut merge: Vec<String> = Vec::new();
        let mut keep: Vec<String> = Vec::new();
        let mut i: usize = 0;
        assert(all.take(0) =~= Seq::<DeltaEntry>::empty());
        while i < self.entries.len()
            invariant
                i <= self.entries@.len(),
                all == self.entries@,
                hot@ == hot_entries(all.take(i as int), hot_threshold),
                views(merge@) == cold_names(all.take(i as int), hot_threshold),
                views(keep@) == entry_names(hot@),
            decreases self.entries@.len() - i,
        {
            assert(all.take(i + 1).drop_last() =~= all.take(i as int));
            assert(all.take(i + 1).last() == all[i as int]);
            let e = &self.entries[i];
            if e.update_count > hot_threshold {
                let ghost kb = views(keep@);
                let ghost hb = hot@;
                hot.push(e.duplicate());
                keep.push(e.feature.clone());
                assert(views(keep@) =~= kb.push(all[i as int].feature@));
                assert(entry_names(hot@) =~= entry_names(hb).push(all[i as int].feature@));
                assert(hot@ =~= hb + seq![all[i as int]]);
                assert(views(merge@) =~= cold_names(all.take(i as int), hot_threshold)
                    + Seq::<Seq<char>>::empty());
            } else {
                let ghost mb = views(merge@);
                merge.push(e.feature.clone());
                assert(views(merge@) =~= mb + seq![all[i as int].feature@]);
                assert(hot@ =~= hot_entries(all.take(i as int), hot_threshold)
                    + Seq::<DeltaEntry>::empty());
            }
            i = i + 1;
        }
        assert(all.take(all.len() as int) =~= all);
        proof {
            lemma_hot_entries_distinct(all, hot_threshold);
        }
        self.entries = hot;
        ConsolidationPlan { merge, keep }
    }
}

/// Each hot entry comes from the ledger, with its name and count.
proof fn lemma_hot_entries_from(s: Seq<DeltaEntry>, t: u32)
    ensures
        forall|k: int|
            0 <= k < hot_entries(s, t).len() ==> exists|i: int|
                0 <= i < s.len() && s[i] == #[trigger] hot_entries(s, t)[k],
        forall|k: int| 0 <= k < hot_entries(s, t).len() ==> is_hot(#[trigger] hot_entries(s, t)[k], t),
    decreases s.len(),
{
    if s.len() > 0 {
        lemma_hot_entries_from(s.drop_last(), t);
        let h = hot_entries(s.drop_last(), t);
        assert forall|k: int| 0 <= k < hot_entries(s, t).len() implies exists|i: int|
            0 <= i < s.len() && s[i] == #[trigger] hot_entries(s, t)[k] by {
            if k < h.len() {
                assert(hot_entries(s, t)[k] == h[k]);
                let i = choose|i: int| 0 <= i < s.drop_last().len() && s.drop_last()[i] == h[k];
                assert(s[i] == h[k]);
            } else {
                assert(s[s.len() - 1] == hot_entries(s, t)[k]);
            }
        }
        assert forall|k: int| 0 <= k < hot_entries(s, t).len() implies is_hot(
            #[trigger] hot_entries(s, t)[k],
            t,
        ) by {
            if k < h.len() {
                assert(hot_entries(s, t)[k] == h[k]);
            }
        }
    }
}

/// Hot entries have distinct names, and no cold entry's name is among them.
proof fn lemma_hot_entries_distinct(s: Seq<DeltaEntry>, t: u32)
    requires
        distinct_names(s),
    ensures
        distinct_names(hot_entries(s, t)),
        forall|i: int|
            0 <= i < s.len() && !is_hot(s[i], t) ==> !entry_names(hot_entries(s, t)).contains(
                #[trigger] s[i].feature@,
            ),
    decreases s.len(),
{
    if s.len() > 0 {
        let p = s.drop_last();
        assert(distinct_names(p)) by {
            assert forall|a: int, b: int| 0 <= a < p.len() && 0 <= b < p.len() && a != b implies p[a].feature@
                != p[b].feature@ by {
                assert(s[a].feature@ != s[b].feature@);
            }
        }
        lemma_hot_entries_distinct(p, t);
        lemma_hot_entries_from(p, t);
        let h = hot_entries(p, t);
        let x = s.last();
        assert forall|k: int| 0 <= k < h.len() implies h[k].feature@ != x.feature@ by {
            let i = choose|i: int| 0 <= i < p.len() && p[i] == h[k];
            assert(s[i] == p[i]);
            assert(s[i].feature@ != s[s.len() - 1].feature@);
        }
        let hs = hot_entries(s, t);
        assert(distinct_names(hs)) by {
            assert forall|a: int, b: int| 0 <= a < hs.len() && 0 <= b < hs.len() && a != b implies hs[a].feature@
                != hs[b].feature@ by {
                if a < h.len() && b < h.len() {
                    assert(hs[a] == h[a]);
                    assert(hs[b] == h[b]);
                } else if a < h.len() {
                    assert(hs[a] == h[a]);
                    assert(hs[b] == x);
                } else {
                    assert(hs[b] == h[b]);
                    assert(hs[a] == x);
                }
            }
        }
        assert forall|i: int| 0 <= i < s.len() && !is_hot(s[i], t) implies !entry_names(hs).contains(
            #[trigger] s[i].feature@,
        ) by {
            if entry_names(hs).contains(s[i].feature@) {
                let k = choose|k: int| 0 <= k < entry_names(hs).len() && entry_names(hs)[k] == s[i].feature@;
                if k < h.len() {
                    assert(hs[k] == h[k]);
                    if i < p.len() {
                        assert(p[i] == s[i]);
                        assert(entry_names(h)[k] == p[i].feature@);
                    } else {
                        assert(h[k].feature@ != x.feature@);
                    }
                } else {
                    assert(hs[k] == x);
                    assert(is_hot(x, t));
                    if i < p.len() {
                        assert(s[i].feature@ != s[s.len() - 1].feature@);
                    }
                }
            }
        }
    }
}

/// After a consolidation no feature that was cold stays in the overlay, each
/// hot feature stays with its update count, and names stay distinct.
pub proof fn lemma_consolidation_clears_cold(entries: Seq<DeltaEntry>, hot_threshold: u32)
    requires
        distinct_names(entries),
    ensures
        distinct_names(hot_entries(entries, hot_threshold)),
        forall|i: int|
            0 <= i < entries.len() && !is_hot(entries[i], hot_threshold) ==> !entry_names(
                hot_entries(entries, hot_threshold),
            ).contains(#[trigger] entries[i].feature@),
        forall|k: int|
            0 <= k < hot_entries(entries, hot_threshold).len() ==> is_hot(
                #[trigger] hot_entries(entries, hot_threshold)[k],
                hot_threshold,
            ) && entries.contains(hot_entries(entries, hot_threshold)[k]),
{
    lemma_hot_entries_distinct(entries, hot_threshold);
    lemma_hot_entries_from(entries, hot_threshold);
    let h = hot_entries(entries, hot_threshold);
    assert forall|k: int| 0 <= k < h.len() implies is_hot(#[trigger] h[k], hot_threshold)
        && entries.contains(h[k]) by {
        let i = choose|i: int| 0 <= i < entries.len() && entries[i] == h[k];
        assert(entries[i] == h[k]);
    }
}

/// The weight-file format version this library reads and writes.
pub const CURRENT_VERSION: u32 = 1;

/// Why a weight file cannot be loaded.
#[derive(Debug, Clone, Copy, PartialEq, Eq, Structural)]
pub enum FormatError {
    /// The file's format version is newer than `CURRENT_VERSION`.
    VersionMismatch,
    /// The file was written for another namespace.
    NamespaceMismatch,
}

/// Decides whether a weight file with this header may be loaded into a model
/// of `namespace`; nothing is loaded when it may not.
pub fn check_weight_file(file_version: u32, file_namespace: &String, namespace: &String) -> (r:
    Result<(), FormatError>)
    ensures
        file_version > CURRENT_VERSION ==> r == Err::<(), FormatError>(FormatError::VersionMismatch),
        file_version <= CURRENT_VERSION && file_namespace@ != namespace@ ==> r == Err::<
            (),
            FormatError,
        >(FormatError::NamespaceMismatch),
        file_version <= CURRENT_VERSION && file_namespace@ == namespace@ ==> r is Ok,
{
    if file_version > CURRENT_VERSION {
        Err(FormatError::VersionMismatch)
    } else if *file_namespace != *namespace {
        Err(FormatError::NamespaceMismatch)
    } else {
        Ok(())
    }
}

} // verus!
