use vstd::prelude::*;

use crate::math::amplitude::filled;

verus! {

/// A label in the concept space, with an entropy value of type `E`.
///
/// Each label represents a discovered "concept". Labels carry metadata for
/// pruning decisions.
#[derive(Clone, Copy, Debug)]
pub struct Label<E> {
    pub id: usize,
    /// Activation frequency count (how often this concept is used).
    pub frequency: usize,
    /// Average activation entropy across uses (lower = more focused).
    pub entropy: E,
}

/// Pruning configuration for concept space reduction.
///
/// Three criteria:
/// - **Frequency**: remove labels rarely activated
/// - **Overlap**: merge labels that are too similar
/// - **Entropy**: remove labels that are too diffuse
#[derive(Clone, Copy, Debug)]
pub struct PruningConfig<E> {
    /// Minimum frequency to keep a label.
    pub min_frequency: usize,
    /// Maximum similarity (above this, the more frequent label absorbs the other).
    pub max_similarity: E,
    /// Maximum entropy (above this, the label is too diffuse).
    pub max_entropy: E,
}

/// A dynamic concept space with pruning heuristics.
///
/// `similarity[i][j]` is how similar labels `i` and `j` are.
#[derive(Clone, Debug)]
pub struct ConceptSpace<E> {
    pub labels: Vec<Label<E>>,
    /// For overlap detection: similarity matrix between labels.
    pub similarity: Vec<Vec<E>>,
    pub next_id: usize,
}

/// `m` is a square matrix of side `n`.
pub open spec fn is_square<T>(m: Seq<Vec<T>>, n: nat) -> bool {
    &&& m.len() == n
    &&& forall|i: int| 0 <= i < n ==> (#[trigger] m[i])@.len() == n
}

/// `m` has at least `n` rows, each of at least `n` entries: it covers every
/// pair of the first `n` labels.
pub open spec fn covers<T>(m: Seq<Vec<T>>, n: nat) -> bool {
    &&& m.len() >= n
    &&& forall|i: int| 0 <= i < n ==> (#[trigger] m[i])@.len() >= n
}

/// The frequencies of `labels`, in order.
pub open spec fn frequencies<E>(labels: Seq<Label<E>>) -> Seq<usize> {
    labels.map_values(|l: Label<E>| l.frequency)
}

/// The positions of `keep` that hold `true`, in increasing order.
pub open spec fn kept_indices(keep: Seq<bool>) -> Seq<int>
    decreases keep.len(),
{
    if keep.len() == 0 {
        Seq::empty()
    } else if keep.last() {
        kept_indices(keep.drop_last()).push(keep.len() - 1)
    } else {
        kept_indices(keep.drop_last())
    }
}

/// The overlap pass over the candidates of row `i`, from column `j` on: a
/// kept label `j` that overlaps `i` is absorbed by `i` when `i` is at least as
/// frequent; otherwise `i` is absorbed by `j` and the row ends.
pub open spec fn overlap_row(
    freq: Seq<usize>,
    overlaps: Seq<Seq<bool>>,
    keep: Seq<bool>,
    target: Seq<Option<usize>>,
    i: int,
    j: int,
) -> (Seq<bool>, Seq<Option<usize>>)
    decreases freq.len() - j,
{
    if j >= freq.len() {
        (keep, target)
    } else if !keep[j] || !overlaps[i][j] {
        overlap_row(freq, overlaps, keep, target, i, j + 1)
    } else if freq[i] >= freq[j] {
        overlap_row(freq, overlaps, keep.update(j, false), target.update(j, Some(i as usize)), i, j + 1)
    } else {
        (keep.update(i, false), target.update(i, Some(j as usize)))
    }
}

/// The overlap pass over the rows from `i` on; a row is visited only when
/// its label is still kept.
pub open spec fn overlap_rows(
    freq: Seq<usize>,
    overlaps: Seq<Seq<bool>>,
    keep: Seq<bool>,
    target: Seq<Option<usize>>,
    i: int,
) -> (Seq<bool>, Seq<Option<usize>>)
    decreases freq.len() - i,
{
    if i >= freq.len() {
        (keep, target)
    } else if !keep[i] {
        overlap_rows(freq, overlaps, keep, target, i + 1)
    } else {
        let (k, t) = overlap_row(freq, overlaps, keep, target, i, i + 1);
        overlap_rows(freq, overlaps, k, t, i + 1)
    }
}

/// The labels that survive frequency pruning: all of them when there is
/// only one label.
pub open spec fn frequency_pass(freq: Seq<usize>, min_frequency: usize) -> Seq<bool> {
    Seq::new(freq.len(), |i: int| !(freq[i] < min_frequency && freq.len() > 1))
}

/// The decisions of pruning: which labels are kept, and for labels absorbed
/// in the overlap pass, the label that absorbed them.
pub open spec fn prune_decisions(
    freq: Seq<usize>,
    min_frequency: usize,
    overlaps: Seq<Seq<bool>>,
    diffuse: Seq<bool>,
) -> (Seq<bool>, Seq<Option<usize>>) {
    let n = freq.len();
    let (keep, target) = overlap_rows(
        freq,
        overlaps,
        frequency_pass(freq, min_frequency),
        Seq::new(n, |i: int| None),
        0,
    );
    (Seq::new(n, |i: int| keep[i] && !(diffuse[i] && n > 1)), target)
}

/// The position of label `i` among the kept labels: the number of kept
/// labels before it.
pub open spec fn kept_position(keep: Seq<bool>, i: int) -> usize {
    kept_indices(keep.take(i)).len() as usize
}

/// Where label `i` goes, following absorptions for at most `fuel` steps: a
/// kept label goes to its position among the kept labels, an absorbed label
/// goes wherever the label that absorbed it goes, and any other label goes
/// nowhere.
pub open spec fn resolve(keep: Seq<bool>, target: Seq<Option<usize>>, i: int, fuel: nat) -> Option<usize>
    decreases fuel,
{
    if fuel == 0 || !(0 <= i < keep.len()) {
        None
    } else if keep[i] {
        Some(kept_position(keep, i))
    } else {
        match target[i] {
            Some(t) => resolve(keep, target, t as int, (fuel - 1) as nat),
            None => None,
        }
    }
}

/// Where label `i` goes after pruning: its position among the kept labels if
/// kept; if absorbed, wherever the label that absorbed it goes; otherwise
/// nowhere. Each label is absorbed at most once and only by a label kept at
/// that moment, so a chain of absorptions visits each label at most once and
/// `keep.len() + 1` steps reach its end (see `lemma_prune_absorbed`).
pub open spec fn new_index(keep: Seq<bool>, target: Seq<Option<usize>>, i: int) -> Option<usize> {
    resolve(keep, target, i, (keep.len() + 1) as nat)
}

/// The absorptions recorded in `target` are well ordered: every absorbed label
/// is no longer kept and has a stamp below `count`, and its absorber is in
/// range and either still kept or absorbed later (with a larger stamp).
pub open spec fn absorption_order(keep: Seq<bool>, target: Seq<Option<usize>>, stamp: Seq<nat>, count: nat) -> bool {
    &&& target.len() == keep.len()
    &&& stamp.len() == keep.len()
    &&& count + kept_indices(keep).len() <= keep.len()
    &&& forall|x: int| 0 <= x < keep.len() && (#[trigger] target[x]) is Some ==> {
        let t = target[x]->0 as int;
        &&& !keep[x]
        &&& 0 <= t < keep.len()
        &&& stamp[x] < count
        &&& keep[t] || (target[t] is Some && stamp[x] < stamp[t])
    }
}

/// Extending `keep` by one element extends `kept_indices` accordingly.
pub proof fn lemma_kept_indices_step(keep: Seq<bool>, i: int)
    requires
        0 <= i < keep.len(),
    ensures
        kept_indices(keep.take(i + 1)) == if keep[i] {
            kept_indices(keep.take(i)).push(i)
        } else {
            kept_indices(keep.take(i))
        },
{
    assert(keep.take(i + 1).drop_last() =~= keep.take(i));
}

/// The kept positions are in range, strictly increasing, kept, and there are
/// no more of them than positions.
pub proof fn lemma_kept_indices(keep: Seq<bool>)
    ensures
        kept_indices(keep).len() <= keep.len(),
        forall|r: int| 0 <= r < kept_indices(keep).len()
            ==> 0 <= #[trigger] kept_indices(keep)[r] < keep.len() && keep[kept_indices(keep)[r]],
        forall|r: int, s: int| 0 <= r < s < kept_indices(keep).len()
            ==> kept_indices(keep)[r] < kept_indices(keep)[s],
    decreases keep.len(),
{
    if keep.len() > 0 {
        lemma_kept_indices(keep.drop_last());
    }
}

/// The position of a kept label among the kept labels is where it is listed.
pub proof fn lemma_kept_position(keep: Seq<bool>, i: int)
    requires
        0 <= i < keep.len(),
        keep[i],
    ensures
        kept_indices(keep.take(i)).len() < kept_indices(keep).len(),
        kept_indices(keep)[kept_indices(keep.take(i)).len() as int] == i,
    decreases keep.len(),
{
    if i == keep.len() - 1 {
        assert(keep.drop_last() =~= keep.take(i));
    } else {
        assert(keep.drop_last().take(i) =~= keep.take(i));
        lemma_kept_position(keep.drop_last(), i);
    }
}

/// The overlap pass keeps the lengths of its decisions.
pub proof fn lemma_overlap_row_len(
    freq: Seq<usize>,
    overlaps: Seq<Seq<bool>>,
    keep: Seq<bool>,
    target: Seq<Option<usize>>,
    i: int,
    j: int,
)
    requires
        0 <= i < keep.len(),
        0 <= j,
        target.len() == keep.len(),
        freq.len() == keep.len(),
    ensures
        overlap_row(freq, overlaps, keep, target, i, j).0.len() == keep.len(),
        overlap_row(freq, overlaps, keep, target, i, j).1.len() == keep.len(),
    decreases freq.len() - j,
{
    if j < keep.len() {
        if !keep[j] || !overlaps[i][j] {
            lemma_overlap_row_len(freq, overlaps, keep, target, i, j + 1);
        } else if freq[i] >= freq[j] {
            lemma_overlap_row_len(freq, overlaps, keep.update(j, false), target.update(j, Some(i as usize)), i, j + 1);
        }
    }
}

/// The overlap pass keeps the lengths of its decisions.
pub proof fn lemma_overlap_rows_len(
    freq: Seq<usize>,
    overlaps: Seq<Seq<bool>>,
    keep: Seq<bool>,
    target: Seq<Option<usize>>,
    i: int,
)
    requires
        0 <= i,
        target.len() == keep.len(),
        freq.len() == keep.len(),
    ensures
        overlap_rows(freq, overlaps, keep, target, i).0.len() == keep.len(),
        overlap_rows(freq, overlaps, keep, target, i).1.len() == keep.len(),
    decreases freq.len() - i,
{
    if i < keep.len() {
        if !keep[i] {
            lemma_overlap_rows_len(freq, overlaps, keep, target, i + 1);
        } else {
            lemma_overlap_row_len(freq, overlaps, keep, target, i, i + 1);
            let (k, t) = overlap_row(freq, overlaps, keep, target, i, i + 1);
            lemma_overlap_rows_len(freq, overlaps, k, t, i + 1);
        }
    }
}

/// Clearing a kept position removes exactly one kept index.
pub proof fn lemma_kept_indices_clear(keep: Seq<bool>, j: int)
    requires
        0 <= j < keep.len(),
        keep[j],
    ensures
        kept_indices(keep.update(j, false)).len() + 1 == kept_indices(keep).len(),
    decreases keep.len(),
{
    let u = keep.update(j, false);
    if j == keep.len() - 1 {
        assert(u.drop_last() =~= keep.drop_last());
    } else {
        assert(u.drop_last() =~= keep.drop_last().update(j, false));
        lemma_kept_indices_clear(keep.drop_last(), j);
    }
}

/// Label `x` is absorbed by label `y` (a kept label) in one step of the
/// overlap pass: the decisions and stamps that follow stay well ordered.
pub proof fn lemma_absorb_step(keep: Seq<bool>, target: Seq<Option<usize>>, stamp: Seq<nat>, count: nat, x: int, y: int)
    requires
        absorption_order(keep, target, stamp, count),
        keep.len() <= usize::MAX,
        0 <= x < keep.len(),
        0 <= y < keep.len(),
        x != y,
        keep[x],
        keep[y],
    ensures
        absorption_order(
            keep.update(x, false),
            target.update(x, Some(y as usize)),
            stamp.update(x, count),
            count + 1,
        ),
{
    let k2 = keep.update(x, false);
    let t2 = target.update(x, Some(y as usize));
    let s2 = stamp.update(x, count);
    lemma_kept_indices_clear(keep, x);
    assert forall|z: int| 0 <= z < k2.len() && (#[trigger] t2[z]) is Some implies {
        let t = t2[z]->0 as int;
        &&& !k2[z]
        &&& 0 <= t < k2.len()
        &&& s2[z] < count + 1
        &&& k2[t] || (t2[t] is Some && s2[z] < s2[t])
    } by {
        if z != x {
            assert(target[z] is Some);
            let t = target[z]->0 as int;
            if t == x {
                assert(keep[x]);
            }
        }
    }
}

/// The overlap pass of one row keeps absorptions well ordered and only clears
/// kept labels.
pub proof fn lemma_overlap_row_order(
    freq: Seq<usize>,
    overlaps: Seq<Seq<bool>>,
    keep: Seq<bool>,
    target: Seq<Option<usize>>,
    stamp: Seq<nat>,
    count: nat,
    i: int,
    j: int,
) -> (r: (Seq<nat>, nat))
    requires
        absorption_order(keep, target, stamp, count),
        freq.len() == keep.len(),
        keep.len() <= usize::MAX,
        0 <= i < keep.len(),
        i < j,
        keep[i],
    ensures
        absorption_order(
            overlap_row(freq, overlaps, keep, target, i, j).0,
            overlap_row(freq, overlaps, keep, target, i, j).1,
            r.0,
            r.1,
        ),
        forall|k: int| 0 <= k < keep.len() && #[trigger] overlap_row(freq, overlaps, keep, target, i, j).0[k] ==> keep[k],
    decreases freq.len() - j,
{
    if j >= freq.len() {
        (stamp, count)
    } else if !keep[j] || !overlaps[i][j] {
        lemma_overlap_row_order(freq, overlaps, keep, target, stamp, count, i, j + 1)
    } else if freq[i] >= freq[j] {
        lemma_absorb_step(keep, target, stamp, count, j, i);
        let r = lemma_overlap_row_order(
            freq,
            overlaps,
            keep.update(j, false),
            target.update(j, Some(i as usize)),
            stamp.update(j, count),
            count + 1,
            i,
            j + 1,
        );
        r
    } else {
        lemma_absorb_step(keep, target, stamp, count, i, j);
        (stamp.update(i, count), count + 1)
    }
}

/// The overlap pass from row `i` on keeps absorptions well ordered and only
/// clears kept labels.
pub proof fn lemma_overlap_rows_order(
    freq: Seq<usize>,
    overlaps: Seq<Seq<bool>>,
    keep: Seq<bool>,
    target: Seq<Option<usize>>,
    stamp: Seq<nat>,
    count: nat,
    i: int,
) -> (r: (Seq<nat>, nat))
    requires
        absorption_order(keep, target, stamp, count),
        freq.len() == keep.len(),
        keep.len() <= usize::MAX,
        0 <= i,
    ensures
        absorption_order(
            overlap_rows(freq, overlaps, keep, target, i).0,
            overlap_rows(freq, overlaps, keep, target, i).1,
            r.0,
            r.1,
        ),
        forall|k: int| 0 <= k < keep.len() && #[trigger] overlap_rows(freq, overlaps, keep, target, i).0[k] ==> keep[k],
    decreases freq.len() - i,
{
    if i >= freq.len() {
        (stamp, count)
    } else if !keep[i] {
        lemma_overlap_rows_order(freq, overlaps, keep, target, stamp, count, i + 1)
    } else {
        let r1 = lemma_overlap_row_order(freq, overlaps, keep, target, stamp, count, i, i + 1);
        let (k, t) = overlap_row(freq, overlaps, keep, target, i, i + 1);
        lemma_overlap_row_len(freq, overlaps, keep, target, i, i + 1);
        let r2 = lemma_overlap_rows_order(freq, overlaps, k, t, r1.0, r1.1, i + 1);
        r2
    }
}

/// Following absorptions from `y` reaches its end within `depth` steps, where
/// `depth` is 1 for a label not absorbed and `count - stamp[y] + 1` for an
/// absorbed one: more fuel changes nothing. `keep` is any subset of the
/// labels kept by the overlap pass.
pub proof fn lemma_resolve_stable(
    kept: Seq<bool>,
    keep: Seq<bool>,
    target: Seq<Option<usize>>,
    stamp: Seq<nat>,
    count: nat,
    y: int,
    fuel: nat,
)
    requires
        absorption_order(kept, target, stamp, count),
        keep.len() == kept.len(),
        forall|k: int| 0 <= k < keep.len() && #[trigger] keep[k] ==> kept[k],
        0 <= y < keep.len(),
        fuel >= (if target[y] is Some { count - stamp[y] + 1 } else { 1 }),
    ensures
        resolve(keep, target, y, fuel) == resolve(
            keep,
            target,
            y,
            (if target[y] is Some { count - stamp[y] + 1 } else { 1 }) as nat,
        ),
    decreases (if target[y] is Some { count - stamp[y] + 1 } else { 1 }),
{
    let d = (if target[y] is Some { count - stamp[y] + 1 } else { 1 }) as nat;
    if target[y] is Some {
        let t = target[y]->0 as int;
        assert(!keep[y]);
        assert(target[y] matches Some(tt) && tt as int == t);
        if target[t] is Some {
            lemma_resolve_stable(kept, keep, target, stamp, count, t, (fuel - 1) as nat);
            lemma_resolve_stable(kept, keep, target, stamp, count, t, (d - 1) as nat);
        } else {
            lemma_resolve_stable(kept, keep, target, stamp, count, t, (fuel - 1) as nat);
            lemma_resolve_stable(kept, keep, target, stamp, count, t, (d - 1) as nat);
        }
    }
}

/// Where `resolve` sends a label is a surviving position, and a kept label is
/// sent to its own position.
pub proof fn lemma_resolve(keep: Seq<bool>, target: Seq<Option<usize>>, i: int, fuel: nat)
    requires
        keep.len() <= usize::MAX,
    ensures
        resolve(keep, target, i, fuel) matches Some(r) ==> {
            &&& r < kept_indices(keep).len()
            &&& keep[kept_indices(keep)[r as int]]
        },
        0 <= i < keep.len() && keep[i] && fuel > 0
            ==> (resolve(keep, target, i, fuel) matches Some(r) && kept_indices(keep)[r as int] == i),
    decreases fuel,
{
    lemma_kept_indices(keep);
    if fuel > 0 && 0 <= i < keep.len() {
        if keep[i] {
            lemma_kept_position(keep, i);
            lemma_kept_indices(keep.take(i));
        } else {
            match target[i] {
                Some(t) => {
                    lemma_resolve(keep, target, t as int, (fuel - 1) as nat);
                },
                None => {},
            }
        }
    }
}

/// Pruning sends every label either nowhere or to a surviving label; every
/// surviving label is sent to its own new position; and a lone label always
/// survives.
pub proof fn lemma_prune_mapping(
    freq: Seq<usize>,
    min_frequency: usize,
    overlaps: Seq<Seq<bool>>,
    diffuse: Seq<bool>,
    i: int,
)
    requires
        diffuse.len() == freq.len(),
        freq.len() <= usize::MAX,
        0 <= i < freq.len(),
    ensures
        ({
            let (keep, target) = prune_decisions(freq, min_frequency, overlaps, diffuse);
            let kept = kept_indices(keep);
            &&& new_index(keep, target, i) matches Some(r) ==> r < kept.len() && keep[kept[r as int]]
            &&& keep[i] ==> (new_index(keep, target, i) matches Some(r) && kept[r as int] == i)
            &&& freq.len() == 1 ==> keep[0]
        }),
{
    let n = freq.len();
    let keep1 = frequency_pass(freq, min_frequency);
    let target1 = Seq::new(n, |k: int| None::<usize>);
    lemma_overlap_rows_len(freq, overlaps, keep1, target1, 0);
    let (keep, target) = prune_decisions(freq, min_frequency, overlaps, diffuse);
    lemma_resolve(keep, target, i, (keep.len() + 1) as nat);
    if n == 1 {
        assert(keep1[0]);
        assert(overlap_row(freq, overlaps, keep1, target1, 0, 1) == (keep1, target1));
        assert(overlap_rows(freq, overlaps, keep1, target1, 1) == (keep1, target1));
    }
}

/// The overlap pass of pruning starts well ordered, so its decisions are.
proof fn lemma_prune_order(
    freq: Seq<usize>,
    min_frequency: usize,
    overlaps: Seq<Seq<bool>>,
) -> (r: (Seq<nat>, nat))
    requires
        freq.len() <= usize::MAX,
    ensures
        ({
            let n = freq.len();
            let keep1 = frequency_pass(freq, min_frequency);
            let (keep2, target) = overlap_rows(freq, overlaps, keep1, Seq::new(n, |k: int| None::<usize>), 0);
            &&& absorption_order(keep2, target, r.0, r.1)
            &&& forall|k: int| 0 <= k < n && #[trigger] keep2[k] ==> keep1[k]
        }),
{
    let n = freq.len();
    let keep1 = frequency_pass(freq, min_frequency);
    let target1 = Seq::new(n, |k: int| None::<usize>);
    let stamp1 = Seq::new(n, |k: int| 0nat);
    lemma_kept_indices(keep1);
    assert(absorption_order(keep1, target1, stamp1, 0));
    lemma_overlap_rows_order(freq, overlaps, keep1, target1, stamp1, 0, 0)
}

/// A label absorbed in the overlap pass goes, after pruning, wherever the
/// label that absorbed it goes, whichever of the two comes first.
pub proof fn lemma_prune_absorbed(
    freq: Seq<usize>,
    min_frequency: usize,
    overlaps: Seq<Seq<bool>>,
    diffuse: Seq<bool>,
    x: int,
)
    requires
        diffuse.len() == freq.len(),
        freq.len() <= usize::MAX,
        0 <= x < freq.len(),
    ensures
        ({
            let (keep, target) = prune_decisions(freq, min_frequency, overlaps, diffuse);
            target[x] matches Some(t) ==> {
                &&& !keep[x]
                &&& t < freq.len()
                &&& new_index(keep, target, x) == new_index(keep, target, t as int)
            }
        }),
{
    let n = freq.len();
    let keep1 = frequency_pass(freq, min_frequency);
    let target1 = Seq::new(n, |k: int| None::<usize>);
    lemma_overlap_rows_len(freq, overlaps, keep1, target1, 0);
    let (keep2, target) = overlap_rows(freq, overlaps, keep1, target1, 0);
    let r = lemma_prune_order(freq, min_frequency, overlaps);
    let (keep, target3) = prune_decisions(freq, min_frequency, overlaps, diffuse);
    assert(target3 == target);
    assert forall|k: int| 0 <= k < keep.len() && #[trigger] keep[k] implies keep2[k] by {}
    if target[x] is Some {
        let t = target[x]->0 as int;
        lemma_kept_indices(keep2);
        lemma_resolve_stable(keep2, keep, target, r.0, r.1, t, n as nat);
        lemma_resolve_stable(keep2, keep, target, r.0, r.1, t, (n + 1) as nat);
        assert(new_index(keep, target, x) == resolve(keep, target, t, n as nat));
    }
}

/// No two labels kept by `keep` overlap, for first labels below `i`.
pub open spec fn apart_before(overlaps: Seq<Seq<bool>>, keep: Seq<bool>, i: int) -> bool {
    forall|a: int, b: int| 0 <= a < i && a < b < keep.len() && #[trigger] keep[a] && #[trigger] keep[b]
        ==> !overlaps[a][b]
}

/// After the overlap pass of row `i` from column `j` on, a label `i` that is
/// still kept overlaps no kept label from `j` on; and the pass only clears
/// kept labels.
proof fn lemma_overlap_row_apart(
    freq: Seq<usize>,
    overlaps: Seq<Seq<bool>>,
    keep: Seq<bool>,
    target: Seq<Option<usize>>,
    i: int,
    j: int,
)
    requires
        freq.len() == keep.len(),
        target.len() == keep.len(),
        0 <= i < keep.len(),
        i < j,
    ensures
        ({
            let k2 = overlap_row(freq, overlaps, keep, target, i, j).0;
            &&& k2.len() == keep.len()
            &&& forall|k: int| 0 <= k < keep.len() && #[trigger] k2[k] ==> keep[k]
            &&& k2[i] ==> forall|b: int| j <= b < keep.len() && #[trigger] k2[b] ==> !overlaps[i][b]
        }),
    decreases freq.len() - j,
{
    lemma_overlap_row_len(freq, overlaps, keep, target, i, j);
    if j < freq.len() {
        if !keep[j] || !overlaps[i][j] {
            lemma_overlap_row_apart(freq, overlaps, keep, target, i, j + 1);
        } else if freq[i] >= freq[j] {
            lemma_overlap_row_apart(freq, overlaps, keep.update(j, false), target.update(j, Some(i as usize)), i, j + 1);
        }
    }
}

/// The overlap pass from row `i` on leaves no two kept labels overlapping,
/// if none did before row `i`; and it only clears kept labels.
proof fn lemma_overlap_rows_apart(
    freq: Seq<usize>,
    overlaps: Seq<Seq<bool>>,
    keep: Seq<bool>,
    target: Seq<Option<usize>>,
    i: int,
)
    requires
        freq.len() == keep.len(),
        target.len() == keep.len(),
        0 <= i,
        apart_before(overlaps, keep, i),
    ensures
        ({
            let k2 = overlap_rows(freq, overlaps, keep, target, i).0;
            &&& k2.len() == keep.len()
            &&& forall|k: int| 0 <= k < keep.len() && #[trigger] k2[k] ==> keep[k]
            &&& apart_before(overlaps, k2, keep.len() as int)
        }),
    decreases freq.len() - i,
{
    lemma_overlap_rows_len(freq, overlaps, keep, target, i);
    if i >= freq.len() {
        assert forall|a: int, b: int| 0 <= a < keep.len() && a < b < keep.len() && #[trigger] keep[a] && #[trigger] keep[b]
            implies !overlaps[a][b] by {
            assert(a < i);
        }
    } else if !keep[i] {
        assert forall|a: int, b: int| 0 <= a < i + 1 && a < b < keep.len() && #[trigger] keep[a] && #[trigger] keep[b]
            implies !overlaps[a][b] by {
            assert(a < i);
        }
        lemma_overlap_rows_apart(freq, overlaps, keep, target, i + 1);
    } else {
        lemma_overlap_row_apart(freq, overlaps, keep, target, i, i + 1);
        lemma_overlap_row_len(freq, overlaps, keep, target, i, i + 1);
        let (k, t) = overlap_row(freq, overlaps, keep, target, i, i + 1);
        assert forall|a: int, b: int| 0 <= a < i + 1 && a < b < k.len() && #[trigger] k[a] && #[trigger] k[b]
            implies !overlaps[a][b] by {
            assert(keep[a] && keep[b]);
        }
        lemma_overlap_rows_apart(freq, overlaps, k, t, i + 1);
    }
}

/// What survives pruning passes every criterion: when there is more than one
/// label, a surviving label is frequent enough and not diffuse; and no two
/// surviving labels overlap.
pub proof fn lemma_prune_survivors(
    freq: Seq<usize>,
    min_frequency: usize,
    overlaps: Seq<Seq<bool>>,
    diffuse: Seq<bool>,
)
    requires
        diffuse.len() == freq.len(),
    ensures
        ({
            let (keep, target) = prune_decisions(freq, min_frequency, overlaps, diffuse);
            let n = freq.len();
            &&& keep.len() == n
            &&& forall|i: int| 0 <= i < n && #[trigger] keep[i] && n > 1
                ==> freq[i] >= min_frequency && !diffuse[i]
            &&& forall|a: int, b: int| 0 <= a < b < n && #[trigger] keep[a] && #[trigger] keep[b]
                ==> !overlaps[a][b]
        }),
{
    let n = freq.len();
    let keep1 = frequency_pass(freq, min_frequency);
    let target1 = Seq::new(n, |k: int| None::<usize>);
    lemma_overlap_rows_apart(freq, overlaps, keep1, target1, 0);
    let (keep, target) = prune_decisions(freq, min_frequency, overlaps, diffuse);
    let keep2 = overlap_rows(freq, overlaps, keep1, target1, 0).0;
    assert forall|a: int, b: int| 0 <= a < b < n && #[trigger] keep[a] && #[trigger] keep[b]
        implies !overlaps[a][b] by {
        assert(keep2[a] && keep2[b]);
    }
}

/// The overlap pass changes nothing when no two kept labels overlap.
proof fn lemma_overlap_rows_apart_unchanged(
    freq: Seq<usize>,
    overlaps: Seq<Seq<bool>>,
    keep: Seq<bool>,
    target: Seq<Option<usize>>,
    i: int,
)
    requires
        freq.len() == keep.len(),
        0 <= i,
        apart_before(overlaps, keep, keep.len() as int),
    ensures
        overlap_rows(freq, overlaps, keep, target, i) == (keep, target),
    decreases freq.len() - i,
{
    if i < freq.len() {
        if keep[i] {
            lemma_overlap_row_apart_unchanged(freq, overlaps, keep, target, i, i + 1);
        }
        lemma_overlap_rows_apart_unchanged(freq, overlaps, keep, target, i + 1);
    }
}

/// The overlap pass of a row changes nothing when no two kept labels overlap.
proof fn lemma_overlap_row_apart_unchanged(
    freq: Seq<usize>,
    overlaps: Seq<Seq<bool>>,
    keep: Seq<bool>,
    target: Seq<Option<usize>>,
    i: int,
    j: int,
)
    requires
        freq.len() == keep.len(),
        0 <= i < keep.len(),
        i < j,
        keep[i],
        apart_before(overlaps, keep, keep.len() as int),
    ensures
        overlap_row(freq, overlaps, keep, target, i, j) == (keep, target),
    decreases freq.len() - j,
{
    if j < freq.len() {
        if keep[j] {
            assert(!overlaps[i][j]);
        }
        lemma_overlap_row_apart_unchanged(freq, overlaps, keep, target, i, j + 1);
    }
}

/// A sequence of `true`s keeps every position, each at its own place.
proof fn lemma_kept_indices_all(keep: Seq<bool>)
    requires
        forall|k: int| 0 <= k < keep.len() ==> keep[k],
    ensures
        kept_indices(keep).len() == keep.len(),
    decreases keep.len(),
{
    if keep.len() > 0 {
        lemma_kept_indices_all(keep.drop_last());
    }
}

/// Pruning twice changes nothing: when the second pruning judges the labels
/// that survived the first (their frequencies, their overlaps and their
/// diffuseness, restricted to the survivors) with the same minimum
/// frequency, it keeps every label, absorbs none, and maps each to itself.
pub proof fn lemma_prune_twice(
    freq: Seq<usize>,
    min_frequency: usize,
    overlaps: Seq<Seq<bool>>,
    diffuse: Seq<bool>,
)
    requires
        diffuse.len() == freq.len(),
        freq.len() <= usize::MAX,
    ensures
        ({
            let (keep, target) = prune_decisions(freq, min_frequency, overlaps, diffuse);
            let kept = kept_indices(keep);
            let m = kept.len();
            let freq2 = Seq::new(m, |r: int| freq[kept[r]]);
            let overlaps2 = Seq::new(m, |r: int| Seq::new(m, |c: int| overlaps[kept[r]][kept[c]]));
            let diffuse2 = Seq::new(m, |r: int| diffuse[kept[r]]);
            let (keep2, target2) = prune_decisions(freq2, min_frequency, overlaps2, diffuse2);
            &&& forall|r: int| 0 <= r < m ==> #[trigger] keep2[r] && target2[r] is None
            &&& kept_indices(keep2).len() == m
            &&& forall|r: int| 0 <= r < m ==> #[trigger] new_index(keep2, target2, r) == Some(r as usize)
        }),
{
    let n = freq.len();
    let (keep, target) = prune_decisions(freq, min_frequency, overlaps, diffuse);
    lemma_prune_survivors(freq, min_frequency, overlaps, diffuse);
    lemma_kept_indices(keep);
    let kept = kept_indices(keep);
    let m = kept.len();
    let freq2 = Seq::new(m, |r: int| freq[kept[r]]);
    let overlaps2 = Seq::new(m, |r: int| Seq::new(m, |c: int| overlaps[kept[r]][kept[c]]));
    let diffuse2 = Seq::new(m, |r: int| diffuse[kept[r]]);
    let keep1 = frequency_pass(freq2, min_frequency);
    let target1 = Seq::new(m, |k: int| None::<usize>);
    assert forall|r: int| 0 <= r < m implies #[trigger] keep1[r] by {
        if m > 1 {
            assert(keep[kept[r]]);
        }
    }
    assert(apart_before(overlaps2, keep1, m as int)) by {
        assert forall|a: int, b: int| 0 <= a < m && a < b < m && #[trigger] keep1[a] && #[trigger] keep1[b]
            implies !overlaps2[a][b] by {
            assert(kept[a] < kept[b]);
            assert(keep[kept[a]] && keep[kept[b]]);
        }
    }
    lemma_overlap_rows_apart_unchanged(freq2, overlaps2, keep1, target1, 0);
    let (keep2, target2) = prune_decisions(freq2, min_frequency, overlaps2, diffuse2);
    assert forall|r: int| 0 <= r < m implies #[trigger] keep2[r] && target2[r] is None by {
        if m > 1 {
            assert(keep[kept[r]]);
        }
    }
    lemma_kept_indices_all(keep2);
    assert forall|r: int| 0 <= r < m implies #[trigger] new_index(keep2, target2, r) == Some(r as usize) by {
        assert forall|k: int| 0 <= k < keep2.take(r).len() implies keep2.take(r)[k] by {
            assert(keep2[k]);
        }
        lemma_kept_indices_all(keep2.take(r));
    }
}

/// The rows of a matrix, as sequences.
pub open spec fn matrix_view<T>(m: Seq<Vec<T>>) -> Seq<Seq<T>> {
    m.map_values(|row: Vec<T>| row@)
}


/// Label identifiers are pairwise distinct and all below `next_id`.
pub open spec fn ids_fresh<E>(labels: Seq<Label<E>>, next_id: usize) -> bool {
    &&& forall|i: int| 0 <= i < labels.len() ==> (#[trigger] labels[i]).id < next_id
    &&& forall|i: int, j: int| 0 <= i < j < labels.len() ==> (#[trigger] labels[i]).id != (#[trigger] labels[j]).id
}

/// Pruning keeps the labels' identifiers fresh: it keeps a subsequence of
/// the labels and does not change `next_id`.
pub proof fn lemma_prune_keeps_ids_fresh<E>(labels: Seq<Label<E>>, kept_labels: Seq<Label<E>>, keep: Seq<bool>, next_id: usize)
    requires
        ids_fresh(labels, next_id),
        keep.len() == labels.len(),
        kept_labels.len() == kept_indices(keep).len(),
        forall|r: int| 0 <= r < kept_labels.len() ==> #[trigger] kept_labels[r] == labels[kept_indices(keep)[r]],
    ensures
        ids_fresh(kept_labels, next_id),
{
    lemma_kept_indices(keep);
    assert forall|i: int, j: int| 0 <= i < j < kept_labels.len()
        implies (#[trigger] kept_labels[i]).id != (#[trigger] kept_labels[j]).id by {
        assert(kept_indices(keep)[i] < kept_indices(keep)[j]);
    }
}

/// Follow absorptions from label `start` for at most `fuel` steps (see
/// `resolve`), given the position of every kept label.
fn follow_absorptions(
    kept: &Vec<bool>,
    target: &Vec<Option<usize>>,
    position: &Vec<Option<usize>>,
    start: usize,
    fuel: usize,
) -> (r: Option<usize>)
    requires
        target@.len() == kept@.len(),
        position@.len() == kept@.len(),
        forall|k: int| 0 <= k < kept@.len() ==> #[trigger] position@[k] == (if kept@[k] {
            Some(kept_position(kept@, k))
        } else {
            None
        }),
    ensures
        r == resolve(kept@, target@, start as int, fuel as nat),
{
    let mut cur = start;
    let mut f = fuel;
    while f > 0
        invariant
            target@.len() == kept@.len(),
            position@.len() == kept@.len(),
            forall|k: int| 0 <= k < kept@.len() ==> #[trigger] position@[k] == (if kept@[k] {
                Some(kept_position(kept@, k))
            } else {
                None
            }),
            resolve(kept@, target@, start as int, fuel as nat) == resolve(kept@, target@, cur as int, f as nat),
        decreases f,
    {
        if cur >= kept.len() {
            return None;
        }
        if kept[cur] {
            return position[cur];
        }
        match target[cur] {
            Some(t) => {
                cur = t;
                f = f - 1;
            },
            None => {
                return None;
            },
        }
    }
    None
}

impl<E: Copy> ConceptSpace<E> {
    /// The similarity matrix is square, one row and column per label.
    pub open spec fn wf(&self) -> bool {
        is_square(self.similarity@, self.labels@.len())
    }

    /// A concept space of `initial_size` fresh labels with identifiers
    /// `0..initial_size`, frequency 0 and entropy `zero`, and an all-`zero`
    /// similarity matrix.
    pub fn new(initial_size: usize, zero: E) -> (space: Self)
        ensures
            space.wf(),
            ids_fresh(space.labels@, space.next_id),
            space.next_id == initial_size,
            space.labels@.len() == initial_size,
            forall|i: int| 0 <= i < initial_size ==> {
                &&& (#[trigger] space.labels@[i]).id == i
                &&& space.labels@[i].frequency == 0
                &&& space.labels@[i].entropy == zero
            },
            forall|i: int, j: int| #![trigger space.similarity@[i]@[j]]
                0 <= i < initial_size && 0 <= j < initial_size ==> space.similarity@[i]@[j] == zero,
    {
        let mut labels: Vec<Label<E>> = Vec::new();
        let mut similarity: Vec<Vec<E>> = Vec::new();
        let mut i: usize = 0;
        while i < initial_size
            invariant
                i <= initial_size,
                labels@.len() == i,
                similarity@.len() == i,
                forall|k: int| 0 <= k < i ==> {
                    &&& (#[trigger] labels@[k]).id == k
                    &&& labels@[k].frequency == 0
                    &&& labels@[k].entropy == zero
                },
                forall|k: int| 0 <= k < i ==> (#[trigger] similarity@[k])@.len() == initial_size,
                forall|k: int, j: int| #![trigger similarity@[k]@[j]]
                    0 <= k < i && 0 <= j < initial_size ==> similarity@[k]@[j] == zero,
            decreases initial_size - i,
        {
            labels.push(Label { id: i, frequency: 0, entropy: zero });
            similarity.push(filled(initial_size, zero));
            i = i + 1;
        }
        ConceptSpace { labels, similarity, next_id: initial_size }
    }

    /// The number of labels.
    pub fn size(&self) -> (n: usize)
        ensures
            n == self.labels@.len(),
    {
        self.labels.len()
    }

    /// Add a new candidate concept label with identifier `next_id`, frequency
    /// 0 and entropy `zero`; every row of the similarity matrix gains a
    /// `zero` column and a new all-`zero` row, as long as the new number of
    /// labels, is appended. Returns the new label's identifier.
    pub fn add_label(&mut self, zero: E) -> (id: usize)
        requires
            old(self).next_id < usize::MAX,
        ensures
            old(self).wf() ==> final(self).wf(),
            ids_fresh(old(self).labels@, old(self).next_id) ==> ids_fresh(final(self).labels@, final(self).next_id),
            id == old(self).next_id,
            final(self).next_id == old(self).next_id + 1,
            final(self).labels@ == old(self).labels@.push(Label { id, frequency: 0, entropy: zero }),
            final(self).similarity@.len() == old(self).similarity@.len() + 1,
            forall|r: int| 0 <= r < old(self).similarity@.len()
                ==> (#[trigger] final(self).similarity@[r])@ == old(self).similarity@[r]@.push(zero),
            final(self).similarity@[old(self).similarity@.len() as int]@.len() == final(self).labels@.len(),
            forall|c: int| 0 <= c < final(self).labels@.len()
                ==> #[trigger] final(self).similarity@[old(self).similarity@.len() as int]@[c] == zero,
    {
        let id = self.next_id;
        self.next_id = self.next_id + 1;
        self.labels.push(Label { id, frequency: 0, entropy: zero });
        let n = self.labels.len();
        let ghost old_sim = self.similarity@;
        let mut r: usize = 0;
        while r < self.similarity.len()
            invariant
                n == self.labels@.len(),
                n == old(self).labels@.len() + 1,
                old_sim == old(self).similarity@,
                self.labels@ == old(self).labels@.push(Label { id, frequency: 0, entropy: zero }),
                self.next_id == old(self).next_id + 1,
                id == old(self).next_id,
                self.similarity@.len() == old_sim.len(),
                r <= old_sim.len(),
                forall|k: int| 0 <= k < r ==> (#[trigger] self.similarity@[k])@ == old_sim[k]@.push(zero),
                forall|k: int| r <= k < old_sim.len() ==> (#[trigger] self.similarity@[k]) == old_sim[k],
            decreases old_sim.len() - r,
        {
            self.similarity[r].push(zero);
            r = r + 1;
        }
        self.similarity.push(filled(n, zero));
        id
    }

    /// Record an activation of label `label_idx`: its frequency grows by one
    /// and its entropy becomes `blend(entropy, activation_entropy, new_frequency)`.
    /// An index out of range changes nothing.
    pub fn record_activation<F: Fn(E, E, usize) -> E>(&mut self, label_idx: usize, activation_entropy: E, blend: F)
        requires
            label_idx < old(self).labels@.len() ==> old(self).labels@[label_idx as int].frequency < usize::MAX,
            forall|a: E, b: E, k: usize| blend.requires((a, b, k)),
        ensures
            final(self).similarity@ == old(self).similarity@,
            final(self).next_id == old(self).next_id,
            final(self).labels@.len() == old(self).labels@.len(),
            forall|i: int| 0 <= i < old(self).labels@.len() && i != label_idx
                ==> #[trigger] final(self).labels@[i] == old(self).labels@[i],
            label_idx < old(self).labels@.len() ==> {
                let before = old(self).labels@[label_idx as int];
                let after = final(self).labels@[label_idx as int];
                &&& after.id == before.id
                &&& after.frequency == before.frequency + 1
                &&& blend.ensures((before.entropy, activation_entropy, after.frequency), after.entropy)
            },
    {
        if label_idx < self.labels.len() {
            let label = self.labels[label_idx];
            let count = label.frequency + 1;
            let entropy = blend(label.entropy, activation_entropy, count);
            self.labels.set(label_idx, Label { id: label.id, frequency: count, entropy });
        }
    }

    /// Set the similarity of labels `i` and `j` (both directions). Indices
    /// out of range change nothing.
    pub fn update_similarity(&mut self, i: usize, j: usize, sim: E)
        requires
            i < old(self).similarity@.len() && j < old(self).similarity@.len() ==> {
                &&& j < old(self).similarity@[i as int]@.len()
                &&& i < old(self).similarity@[j as int]@.len()
            },
        ensures
            old(self).wf() ==> final(self).wf(),
            final(self).labels@ == old(self).labels@,
            final(self).next_id == old(self).next_id,
            final(self).similarity@.len() == old(self).similarity@.len(),
            forall|r: int| 0 <= r < old(self).similarity@.len()
                ==> (#[trigger] final(self).similarity@[r])@.len() == old(self).similarity@[r]@.len(),
            forall|r: int, c: int| #![trigger final(self).similarity@[r]@[c]]
                0 <= r < old(self).similarity@.len() && 0 <= c < old(self).similarity@[r]@.len()
                ==> final(self).similarity@[r]@[c] == if i < old(self).similarity@.len()
                    && j < old(self).similarity@.len() && ((r == i && c == j) || (r == j && c == i)) {
                    sim
                } else {
                    old(self).similarity@[r]@[c]
                },
    {
        if i < self.similarity.len() && j < self.similarity.len() {
            self.similarity[i].set(j, sim);
            self.similarity[j].set(i, sim);
        }
    }

    /// Prune the concept space by frequency, overlap and entropy.
    ///
    /// The criteria are judged against `config` by the caller:
    /// `overlaps[i][j]` tells whether the similarity of labels `i` and `j`
    /// exceeds `config.max_similarity`, and `diffuse[i]` whether the entropy of
    /// label `i` exceeds `config.max_entropy`. Labels below
    /// `config.min_frequency` are dropped first (unless there is only one
    /// label); then, row by row, the more frequent of two overlapping kept
    /// labels absorbs the other; then diffuse labels are dropped (unless there
    /// is only one label). The kept labels and their similarities are
    /// compacted in order.
    ///
    /// Returns a mapping from old label indices to new label indices (`None`
    /// means the label was removed; a label absorbed by another maps where
    /// its absorber maps, whichever comes first). Without labels, nothing
    /// changes; otherwise the similarity matrix becomes square, one row and
    /// column per kept label.
    pub fn prune(&mut self, config: &PruningConfig<E>, overlaps: &Vec<Vec<bool>>, diffuse: &Vec<bool>) -> (mapping: Vec<Option<usize>>)
        requires
            covers(old(self).similarity@, old(self).labels@.len()),
            is_square(overlaps@, old(self).labels@.len()),
            diffuse@.len() == old(self).labels@.len(),
        ensures
            ({
                let (keep, target) = prune_decisions(
                    frequencies(old(self).labels@),
                    config.min_frequency,
                    matrix_view(overlaps@),
                    diffuse@,
                );
                let kept = kept_indices(keep);
                &&& mapping@.len() == old(self).labels@.len()
                &&& forall|i: int| 0 <= i < mapping@.len() ==> #[trigger] mapping@[i] == new_index(keep, target, i)
                &&& final(self).labels@.len() == kept.len()
                &&& forall|r: int| 0 <= r < kept.len()
                    ==> #[trigger] final(self).labels@[r] == old(self).labels@[kept[r]]
                &&& forall|r: int, c: int| #![trigger final(self).similarity@[r]@[c]]
                    0 <= r < kept.len() && 0 <= c < kept.len()
                    ==> final(self).similarity@[r]@[c] == old(self).similarity@[kept[r]]@[kept[c]]
                &&& if old(self).labels@.len() == 0 {
                    final(self).similarity@ == old(self).similarity@
                } else {
                    is_square(final(self).similarity@, kept.len())
                }
            }),
            old(self).labels@.len() > 0 || old(self).wf() ==> final(self).wf(),
            final(self).next_id == old(self).next_id,
            ids_fresh(old(self).labels@, old(self).next_id) ==> ids_fresh(final(self).labels@, final(self).next_id),
    {
        let n = self.labels.len();
        let ghost freq = frequencies(self.labels@);
        let ghost ov = matrix_view(overlaps@);
        if n == 0 {
            proof {
                let (keep, target) = prune_decisions(freq, config.min_frequency, ov, diffuse@);
                assert(keep.len() == 0);
                assert(kept_indices(keep) =~= Seq::<int>::empty());
            }
            return Vec::new();
        }

        // 1. Frequency pruning
        let mut keep: Vec<bool> = Vec::new();
        let mut target: Vec<Option<usize>> = Vec::new();
        let mut i: usize = 0;
        while i < n
            invariant
                n == self.labels@.len(),
                freq == frequencies(self.labels@),
                i <= n,
                keep@ == frequency_pass(freq, config.min_frequency).take(i as int),
                target@ == Seq::new(n as nat, |k: int| None::<usize>).take(i as int),
            decreases n - i,
        {
            keep.push(!(self.labels[i].frequency < config.min_frequency && n > 1));
            target.push(None);
            i = i + 1;
            assert(keep@ =~= frequency_pass(freq, config.min_frequency).take(i as int));
            assert(target@ =~= Seq::new(n as nat, |k: int| None::<usize>).take(i as int));
        }
        assert(keep@ =~= frequency_pass(freq, config.min_frequency));
        assert(target@ =~= Seq::new(n as nat, |k: int| None::<usize>));

        // 2. Overlap pruning: merge similar labels
        let ghost goal = overlap_rows(freq, ov, keep@, target@, 0);
        let mut i: usize = 0;
        while i < n
            invariant
                n == self.labels@.len(),
                freq == frequencies(self.labels@),
                ov == matrix_view(overlaps@),
                is_square(overlaps@, n as nat),
                i <= n,
                keep@.len() == n,
                target@.len() == n,
                overlap_rows(freq, ov, keep@, target@, i as int) == goal,
            decreases n - i,
        {
            if keep[i] {
                let ghost row_goal = overlap_row(freq, ov, keep@, target@, i as int, i + 1);
                let ghost ks = keep@;
                let ghost ts = target@;
                assert(overlap_rows(freq, ov, ks, ts, i as int) == overlap_rows(freq, ov, row_goal.0, row_goal.1, i + 1));
                let mut j: usize = i + 1;
                while j < n
                    invariant_except_break
                        overlap_row(freq, ov, keep@, target@, i as int, j as int) == row_goal,
                    invariant
                        n == self.labels@.len(),
                        freq == frequencies(self.labels@),
                        ov == matrix_view(overlaps@),
                        is_square(overlaps@, n as nat),
                        i < n,
                        i < j <= n,
                        keep@.len() == n,
                        target@.len() == n,
                    ensures
                        keep@ == row_goal.0,
                        target@ == row_goal.1,
                    decreases n - j,
                {
                    assert(ov[i as int] == overlaps@[i as int]@);
                    if keep[j] && overlaps[i][j] {
                        if self.labels[i].frequency >= self.labels[j].frequency {
                            keep.set(j, false);
                            target.set(j, Some(i));
                        } else {
                            keep.set(i, false);
                            target.set(i, Some(j));
                            break;
                        }
                    }
                    j = j + 1;
                }
            }
            i = i + 1;
        }
        proof {
            lemma_overlap_rows_len(freq, ov, frequency_pass(freq, config.min_frequency), Seq::new(n as nat, |k: int| None::<usize>), 0);
        }

        // 3. Entropy pruning
        let ghost keep2 = keep@;
        let ghost keep3 = Seq::new(n as nat, |k: int| keep2[k] && !(diffuse@[k] && n > 1));
        let mut kept: Vec<bool> = Vec::new();
        let mut i: usize = 0;
        while i < n
            invariant
                n == self.labels@.len(),
                diffuse@.len() == n,
                keep@ == keep2,
                keep2.len() == n,
                keep3 == Seq::new(n as nat, |k: int| keep2[k] && !(diffuse@[k] && n > 1)),
                i <= n,
                kept@ == keep3.take(i as int),
            decreases n - i,
        {
            let b = keep[i] && !(diffuse[i] && n > 1);
            assert(b == keep3[i as int]);
            kept.push(b);
            i = i + 1;
            assert(kept@ =~= keep3.take(i as int));
        }
        assert(kept@ =~= keep3);
        assert(prune_decisions(freq, config.min_frequency, ov, diffuse@) == (keep3, target@));

        // Build mapping
        let mut position: Vec<Option<usize>> = Vec::new();
        let mut new_idx: usize = 0;
        let mut i: usize = 0;
        while i < n
            invariant
                kept@ == keep3,
                keep3.len() == n,
                i <= n,
                position@.len() == i,
                forall|k: int| 0 <= k < i ==> #[trigger] position@[k] == (if keep3[k] {
                    Some(kept_position(keep3, k))
                } else {
                    None
                }),
                new_idx == kept_indices(keep3.take(i as int)).len(),
                new_idx <= i,
            decreases n - i,
        {
            proof {
                lemma_kept_indices_step(keep3, i as int);
                lemma_kept_indices(keep3.take(i + 1));
            }
            if kept[i] {
                position.push(Some(new_idx));
                new_idx = new_idx + 1;
            } else {
                position.push(None);
            }
            i = i + 1;
        }
        let mut old_to_new: Vec<Option<usize>> = Vec::new();
        let mut i: usize = 0;
        while i < n
            invariant
                kept@ == keep3,
                keep3.len() == n,
                target@.len() == n,
                position@.len() == n,
                forall|k: int| 0 <= k < n ==> #[trigger] position@[k] == (if keep3[k] {
                    Some(kept_position(keep3, k))
                } else {
                    None
                }),
                i <= n,
                old_to_new@.len() == i,
                forall|k: int| 0 <= k < i ==> #[trigger] old_to_new@[k] == new_index(keep3, target@, k),
            decreases n - i,
        {
            let v = if kept[i] {
                position[i]
            } else {
                match target[i] {
                    Some(t) => follow_absorptions(&kept, &target, &position, t, n),
                    None => None,
                }
            };
            assert(v == new_index(keep3, target@, i as int));
            old_to_new.push(v);
            i = i + 1;
        }

        // Compact the space
        let mut new_labels: Vec<Label<E>> = Vec::new();
        let mut i: usize = 0;
        while i < n
            invariant
                n == self.labels@.len(),
                kept@ == keep3,
                keep3.len() == n,
                i <= n,
                new_labels@.len() == kept_indices(keep3.take(i as int)).len(),
                forall|r: int| 0 <= r < new_labels@.len()
                    ==> #[trigger] new_labels@[r] == self.labels@[kept_indices(keep3.take(i as int))[r]],
            decreases n - i,
        {
            proof {
                lemma_kept_indices_step(keep3, i as int);
            }
            if kept[i] {
                new_labels.push(self.labels[i]);
            }
            i = i + 1;
        }
        assert(keep3.take(n as int) =~= keep3);
        let ghost all_kept = kept_indices(keep3);
        proof {
            lemma_kept_indices(keep3);
        }

        let mut new_similarity: Vec<Vec<E>> = Vec::new();
        let mut i: usize = 0;
        while i < n
            invariant
                n == self.labels@.len(),
                covers(self.similarity@, n as nat),
                kept@ == keep3,
                keep3.len() == n,
                all_kept == kept_indices(keep3),
                forall|r: int| 0 <= r < all_kept.len() ==> 0 <= #[trigger] all_kept[r] < n,
                i <= n,
                new_similarity@.len() == kept_indices(keep3.take(i as int)).len(),
                forall|r: int| 0 <= r < new_similarity@.len() ==> (#[trigger] new_similarity@[r])@.len() == all_kept.len(),
                forall|r: int, c: int| #![trigger new_similarity@[r]@[c]]
                    0 <= r < new_similarity@.len() && 0 <= c < all_kept.len()
                    ==> new_similarity@[r]@[c] == self.similarity@[kept_indices(keep3.take(i as int))[r]]@[all_kept[c]],
            decreases n - i,
        {
            proof {
                lemma_kept_indices_step(keep3, i as int);
            }
            if kept[i] {
                let mut row: Vec<E> = Vec::new();
                let mut j: usize = 0;
                while j < n
                    invariant
                        n == self.labels@.len(),
                        covers(self.similarity@, n as nat),
                        i < n,
                        kept@ == keep3,
                        keep3.len() == n,
                        j <= n,
                        row@.len() == kept_indices(keep3.take(j as int)).len(),
                        forall|c: int| 0 <= c < row@.len()
                            ==> #[trigger] row@[c] == self.similarity@[i as int]@[kept_indices(keep3.take(j as int))[c]],
                    decreases n - j,
                {
                    proof {
                        lemma_kept_indices_step(keep3, j as int);
                    }
                    if kept[j] {
                        row.push(self.similarity[i][j]);
                    }
                    j = j + 1;
                }
                assert(keep3.take(n as int) =~= keep3);
                new_similarity.push(row);
            }
            i = i + 1;
        }

        proof {
            if ids_fresh(self.labels@, self.next_id) {
                lemma_prune_keeps_ids_fresh(self.labels@, new_labels@, keep3, self.next_id);
            }
        }
        self.labels = new_labels;
        self.similarity = new_similarity;
        old_to_new
    }

    /// The identifiers of the current labels, in order.
    pub fn active_label_ids(&self) -> (ids: Vec<usize>)
        ensures
            ids@ == self.labels@.map_values(|l: Label<E>| l.id),
    {
        let mut ids: Vec<usize> = Vec::new();
        let mut i: usize = 0;
        while i < self.labels.len()
            invariant
                i <= self.labels@.len(),
                ids@ == self.labels@.take(i as int).map_values(|l: Label<E>| l.id),
            decreases self.labels@.len() - i,
        {
            ids.push(self.labels[i].id);
            i = i + 1;
            assert(ids@ =~= self.labels@.take(i as int).map_values(|l: Label<E>| l.id));
        }
        assert(self.labels@.take(i as int) =~= self.labels@);
        ids
    }
}

} // verus!
