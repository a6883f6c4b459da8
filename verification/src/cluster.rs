//! Grouping a frequency ranking into clusters.
//!
//! The k-means run itself works on floating-point samples and is made by
//! the caller. This module prepares its input, one sample per counted
//! pixel, and turns its outcome, one cluster index per sample and one
//! centre per cluster, into the clusters of the ranking.

use vstd::multiset::Multiset;
use vstd::seq_lib::to_multiset_build;
use vstd::prelude::*;

use crate::color::Color;
use crate::error::PaletteError;
use crate::ranking::{
    colors_distinct, counts_positive, lemma_first_sample_in_range, lemma_sample_offset_agrees,
    lemma_sample_offset_monotonic, sample_offset, total_samples,
};

verus! {

/// One cluster: its centre, and the entries of the ranking that fell to it.
/// The centre is a mean and need not be a colour that was seen; the list
/// may be empty.
#[derive(Debug, PartialEq, Eq)]
pub struct ColorCluster {
    pub centroid: Color,
    pub assignments: Vec<(Color, usize)>,
}

/// A cluster as a mathematical value.
pub struct ClusterView {
    pub centroid: Color,
    pub assignments: Seq<(Color, usize)>,
}

impl View for ColorCluster {
    type V = ClusterView;

    open spec fn view(&self) -> ClusterView {
        ClusterView { centroid: self.centroid, assignments: self.assignments@ }
    }
}

/// The clusters of a vector as mathematical values.
pub open spec fn cluster_views(clusters: Seq<ColorCluster>) -> Seq<ClusterView> {
    Seq::new(clusters.len(), |j: int| clusters[j]@)
}

/// The samples of a ranking: each colour as often as its count says, the
/// entries in their order.
pub open spec fn sample_colors(ranking: Seq<(Color, usize)>) -> Seq<Color>
    decreases ranking.len(),
{
    if ranking.len() == 0 {
        Seq::empty()
    } else {
        sample_colors(ranking.drop_last()) + Seq::new(
            ranking.last().1 as nat,
            |s: int| ranking.last().0,
        )
    }
}

/// Entry `i` of the ranking has samples, and they were assigned to
/// cluster `j`: the first of them was, and in an outcome that fits the
/// ranking the others are where the first is.
pub open spec fn belongs(
    ranking: Seq<(Color, usize)>,
    assignments: Seq<usize>,
    i: int,
    j: int,
) -> bool {
    ranking[i].1 > 0 && assignments[sample_offset(ranking, i)] == j
}

/// The entries among the first `n` of the ranking that belong to cluster
/// `j`, in ranking order.
pub open spec fn members(
    ranking: Seq<(Color, usize)>,
    assignments: Seq<usize>,
    j: int,
    n: int,
) -> Seq<(Color, usize)>
    decreases n,
{
    if n <= 0 {
        Seq::empty()
    } else if belongs(ranking, assignments, n - 1, j) {
        members(ranking, assignments, j, n - 1).push(ranking[n - 1])
    } else {
        members(ranking, assignments, j, n - 1)
    }
}

/// A scaled channel, cut to the range of a byte.
pub open spec fn clamp_channel(x: i64) -> u8 {
    if x < 0 {
        0u8
    } else if x > 255 {
        255u8
    } else {
        x as u8
    }
}

/// The colour of a centre whose channels were scaled by 255.
pub open spec fn centroid_color(centre: (i64, i64, i64)) -> Color {
    Color {
        red: clamp_channel(centre.0),
        green: clamp_channel(centre.1),
        blue: clamp_channel(centre.2),
    }
}

/// All samples of one entry were assigned to one cluster.
pub open spec fn samples_agree(ranking: Seq<(Color, usize)>, assignments: Seq<usize>) -> bool {
    forall|i: int, s: int|
        #![trigger assignments[s], sample_offset(ranking, i)]
        0 <= i < ranking.len() && sample_offset(ranking, i) <= s < sample_offset(ranking, i)
            + ranking[i].1 ==> assignments[s] == assignments[sample_offset(ranking, i)]
}

/// The outcome of a k-means run fits the ranking it was made for: one
/// centre per cluster, one assignment per sample, every assignment names
/// a cluster, and the samples of one entry are in one cluster.
pub open spec fn outcome_fits(
    ranking: Seq<(Color, usize)>,
    num_clusters: int,
    assignments: Seq<usize>,
    centroids: Seq<(i64, i64, i64)>,
) -> bool {
    &&& centroids.len() == num_clusters
    &&& assignments.len() == total_samples(ranking)
    &&& forall|s: int| 0 <= s < assignments.len() ==> #[trigger] assignments[s] < num_clusters
    &&& samples_agree(ranking, assignments)
}

/// What clustering yields: the error that the input calls for, or the
/// `num_clusters` clusters in the order of their centres.
pub open spec fn clustered(
    ranking: Seq<(Color, usize)>,
    num_clusters: int,
    assignments: Seq<usize>,
    centroids: Seq<(i64, i64, i64)>,
) -> Result<Seq<ClusterView>, PaletteError> {
    if total_samples(ranking) == 0 {
        Err(PaletteError::EmptyInput)
    } else if num_clusters == 0 {
        Err(PaletteError::InvalidConfiguration)
    } else if !outcome_fits(ranking, num_clusters, assignments, centroids) {
        Err(PaletteError::ClusteringMismatch)
    } else {
        Ok(
            Seq::new(
                num_clusters as nat,
                |j: int|
                    ClusterView {
                        centroid: centroid_color(centroids[j]),
                        assignments: members(ranking, assignments, j, ranking.len() as int),
                    },
            ),
        )
    }
}

/// The number of samples of `color_ranking`, or `None` when it is more
/// than a `usize` holds.
pub fn count_samples(color_ranking: &[(Color, usize)]) -> (total: Option<usize>)
    ensures
        match total {
            Some(t) => t == total_samples(color_ranking@),
            None => total_samples(color_ranking@) > usize::MAX,
        },
{
    let n: usize = color_ranking.len();
    let mut total: usize = 0;
    let mut i: usize = 0;
    while i < n
        invariant
            n == color_ranking@.len(),
            i <= n,
            total == sample_offset(color_ranking@, i as int),
        decreases n - i,
    {
        match total.checked_add(color_ranking[i].1) {
            Some(next) => {
                total = next;
            },
            None => {
                proof {
                    lemma_sample_offset_monotonic(color_ranking@, i + 1, n as int);
                }
                return None;
            },
        }
        i += 1;
    }
    Some(total)
}

/// The samples for a k-means run over `color_ranking`: each colour once
/// per unit of its count, so that a colour seen often pulls the centres
/// harder than one seen once. A ranking without samples is refused.
pub fn weighted_samples(color_ranking: &[(Color, usize)]) -> (samples: Result<
    Vec<Color>,
    PaletteError,
>)
    requires
        total_samples(color_ranking@) <= usize::MAX,
    ensures
        total_samples(color_ranking@) == 0 ==> samples == Err::<Vec<Color>, PaletteError>(
            PaletteError::EmptyInput,
        ),
        total_samples(color_ranking@) > 0 ==> samples is Ok && samples->Ok_0@ == sample_colors(
            color_ranking@,
        ),
        samples is Ok ==> samples->Ok_0@.len() == total_samples(color_ranking@),
{
    let n: usize = color_ranking.len();
    let mut samples: Vec<Color> = Vec::new();
    let mut i: usize = 0;
    while i < n
        invariant
            n == color_ranking@.len(),
            i <= n,
            total_samples(color_ranking@) <= usize::MAX,
            samples@ == sample_colors(color_ranking@.take(i as int)),
            samples@.len() == sample_offset(color_ranking@, i as int),
        decreases n - i,
    {
        let (color, count) = color_ranking[i];
        let ghost before = samples@;
        let mut s: usize = 0;
        while s < count
            invariant
                s <= count,
                samples@ == before + Seq::new(s as nat, |q: int| color),
            decreases count - s,
        {
            samples.push(color);
            s += 1;
        }
        proof {
            let next = color_ranking@.take(i + 1);
            assert(next.drop_last() =~= color_ranking@.take(i as int));
        }
        i += 1;
    }
    proof {
        assert(color_ranking@.take(n as int) =~= color_ranking@);
    }
    if samples.len() == 0 {
        Err(PaletteError::EmptyInput)
    } else {
        Ok(samples)
    }
}

/// A scaled channel, cut to the range of a byte.
pub fn clamp_to_byte(x: i64) -> (b: u8)
    ensures
        b == clamp_channel(x),
{
    if x < 0 {
        0
    } else if x > 255 {
        255
    } else {
        x as u8
    }
}

/// Whether every assignment names one of `num_clusters` clusters.
fn assignments_in_range(assignments: &[usize], num_clusters: usize) -> (ok: bool)
    ensures
        ok == (forall|s: int|
            0 <= s < assignments@.len() ==> #[trigger] assignments@[s] < num_clusters),
{
    let n: usize = assignments.len();
    let mut s: usize = 0;
    while s < n
        invariant
            n == assignments@.len(),
            s <= n,
            forall|q: int| 0 <= q < s ==> #[trigger] assignments@[q] < num_clusters,
        decreases n - s,
    {
        if assignments[s] >= num_clusters {
            return false;
        }
        s += 1;
    }
    true
}

/// Whether all samples of each entry were assigned to one cluster.
fn assignments_agree(color_ranking: &[(Color, usize)], assignments: &[usize]) -> (ok: bool)
    requires
        assignments@.len() == total_samples(color_ranking@),
    ensures
        ok == samples_agree(color_ranking@, assignments@),
{
    let n: usize = color_ranking.len();
    let assigned: usize = assignments.len();
    let mut offset: usize = 0;
    let mut i: usize = 0;
    while i < n
        invariant
            n == color_ranking@.len(),
            i <= n,
            offset == sample_offset(color_ranking@, i as int),
            assigned == assignments@.len(),
            assignments@.len() == total_samples(color_ranking@),
            forall|q: int, s: int|
                #![trigger assignments@[s], sample_offset(color_ranking@, q)]
                0 <= q < i && sample_offset(color_ranking@, q) <= s < sample_offset(
                    color_ranking@,
                    q,
                ) + color_ranking@[q].1 ==> assignments@[s] == assignments@[sample_offset(
                    color_ranking@,
                    q,
                )],
        decreases n - i,
    {
        let count: usize = color_ranking[i].1;
        proof {
            lemma_sample_offset_monotonic(color_ranking@, i + 1, n as int);
        }
        let mut s: usize = 1;
        while s < count
            invariant
                1 <= s,
                s <= count || count == 0,
                i < color_ranking@.len(),
                count == color_ranking@[i as int].1,
                offset == sample_offset(color_ranking@, i as int),
                assigned == assignments@.len(),
                offset + count <= assignments@.len(),
                forall|t: int| offset <= t < offset + s && t < offset + count ==> assignments@[t]
                    == assignments@[offset as int],
            decreases count - s,
        {
            if assignments[offset + s] != assignments[offset] {
                return false;
            }
            s += 1;
        }
        offset = offset + count;
        i += 1;
    }
    true
}

/// The clusters of `color_ranking` under the outcome of a k-means run over
/// its samples.
///
/// `assignments` holds the cluster index of each sample, in the order of
/// `weighted_samples`; `centroids` holds the centre of each cluster, each
/// channel scaled to the range 0 to 255. An entry goes to the cluster of
/// its samples, with its count; an entry without samples goes nowhere.
/// The result has exactly `num_clusters` clusters, in the order of the
/// centres, each with its centre cut to bytes and its entries in ranking
/// order.
///
/// A ranking without samples gives `EmptyInput`; then zero clusters give
/// `InvalidConfiguration`; then an outcome that does not fit the ranking
/// gives `ClusteringMismatch`: one with another number of centres or of
/// assignments, with an assignment that names no cluster, or with the
/// samples of one colour in different clusters.
pub fn create_color_clusters(
    color_ranking: &[(Color, usize)],
    num_clusters: usize,
    assignments: &[usize],
    centroids: &[(i64, i64, i64)],
) -> (result: Result<Vec<ColorCluster>, PaletteError>)
    ensures
        match result {
            Ok(clusters) => clustered(color_ranking@, num_clusters as int, assignments@, centroids@)
                == Ok::<Seq<ClusterView>, PaletteError>(cluster_views(clusters@)),
            Err(e) => clustered(color_ranking@, num_clusters as int, assignments@, centroids@)
                == Err::<Seq<ClusterView>, PaletteError>(e),
        },
        result is Ok ==> result->Ok_0@.len() == num_clusters,
        result is Ok ==> forall|j: int|
            0 <= j < num_clusters ==> (#[trigger] result->Ok_0@[j]).centroid == centroid_color(
                centroids@[j],
            ),
        result is Ok ==> forall|j: int|
            0 <= j < num_clusters ==> (#[trigger] result->Ok_0@[j]).assignments@ == members(
                color_ranking@,
                assignments@,
                j,
                color_ranking@.len() as int,
            ),
{
    let assigned: usize = assignments.len();
    let fits = match count_samples(color_ranking) {
        Some(total) => {
            if total == 0 {
                return Err(PaletteError::EmptyInput);
            }
            centroids.len() == num_clusters && assigned == total && assignments_in_range(
                assignments,
                num_clusters,
            ) && assignments_agree(color_ranking, assignments)
        },
        None => false,
    };
    if num_clusters == 0 {
        return Err(PaletteError::InvalidConfiguration);
    }
    if !fits {
        return Err(PaletteError::ClusteringMismatch);
    }
    let mut clusters: Vec<ColorCluster> = Vec::new();
    let mut j: usize = 0;
    while j < num_clusters
        invariant
            j <= num_clusters,
            centroids@.len() == num_clusters,
            clusters@.len() == j,
            forall|q: int|
                0 <= q < j ==> (#[trigger] clusters@[q]).centroid == centroid_color(centroids@[q]),
            forall|q: int| 0 <= q < j ==> (#[trigger] clusters@[q]).assignments@.len() == 0,
        decreases num_clusters - j,
    {
        let (red, green, blue) = centroids[j];
        let centroid = Color {
            red: clamp_to_byte(red),
            green: clamp_to_byte(green),
            blue: clamp_to_byte(blue),
        };
        clusters.push(ColorCluster { centroid, assignments: Vec::new() });
        j += 1;
    }
    let n: usize = color_ranking.len();
    let mut offset: usize = 0;
    let mut i: usize = 0;
    while i < n
        invariant
            n == color_ranking@.len(),
            i <= n,
            offset == sample_offset(color_ranking@, i as int),
            total_samples(color_ranking@) == assignments@.len(),
            forall|s: int| 0 <= s < assignments@.len() ==> #[trigger] assignments@[s] < num_clusters,
            clusters@.len() == num_clusters,
            centroids@.len() == num_clusters,
            forall|q: int|
                0 <= q < num_clusters ==> (#[trigger] clusters@[q]).centroid == centroid_color(
                    centroids@[q],
                ),
            forall|q: int|
                0 <= q < num_clusters ==> (#[trigger] clusters@[q]).assignments@ == members(
                    color_ranking@,
                    assignments@,
                    q,
                    i as int,
                ),
        decreases n - i,
    {
        let entry = color_ranking[i];
        proof {
            lemma_sample_offset_monotonic(color_ranking@, i + 1, n as int);
        }
        if entry.1 > 0 {
            let cluster = assignments[offset];
            clusters[cluster].assignments.push(entry);
        }
        offset = offset + entry.1;
        i += 1;
    }
    proof {
        assert(cluster_views(clusters@) =~= clustered(
            color_ranking@,
            num_clusters as int,
            assignments@,
            centroids@,
        )->Ok_0);
    }
    Ok(clusters)
}

/// The samples are as many as the counts say, and the samples of entry
/// `i` are those from its offset on, each of its colour.
pub proof fn lemma_sample_colors(ranking: Seq<(Color, usize)>, i: int, s: int)
    requires
        0 <= i < ranking.len(),
        sample_offset(ranking, i) <= s < sample_offset(ranking, i) + ranking[i].1,
    ensures
        sample_colors(ranking).len() == total_samples(ranking),
        0 <= s < total_samples(ranking),
        sample_colors(ranking)[s] == ranking[i].0,
    decreases ranking.len(),
{
    let front = ranking.drop_last();
    let last = ranking.len() - 1;
    lemma_sample_colors_len(front);
    lemma_sample_offset_agrees(ranking, front, last);
    if i < last {
        lemma_sample_offset_agrees(ranking, front, i);
        lemma_sample_colors(front, i, s);
    }
}

/// The samples are as many as the counts say.
pub proof fn lemma_sample_colors_len(ranking: Seq<(Color, usize)>)
    ensures
        sample_colors(ranking).len() == total_samples(ranking),
    decreases ranking.len(),
{
    if ranking.len() > 0 {
        let front = ranking.drop_last();
        lemma_sample_colors_len(front);
        lemma_sample_offset_agrees(ranking, front, ranking.len() - 1);
    }
}

/// In an outcome that fits the ranking, every sample lies in the cluster
/// that lists its colour: the samples are mapped back to the colours they
/// came from.
pub proof fn lemma_sample_in_cluster_of_its_color(
    ranking: Seq<(Color, usize)>,
    num_clusters: int,
    assignments: Seq<usize>,
    centroids: Seq<(i64, i64, i64)>,
    i: int,
    s: int,
)
    requires
        clustered(ranking, num_clusters, assignments, centroids) is Ok,
        0 <= i < ranking.len(),
        sample_offset(ranking, i) <= s < sample_offset(ranking, i) + ranking[i].1,
    ensures
        0 <= s < assignments.len(),
        sample_colors(ranking)[s] == ranking[i].0,
        0 <= assignments[s] < num_clusters,
        clustered(ranking, num_clusters, assignments, centroids)->Ok_0[assignments[s] as int].assignments.contains(
            ranking[i],
        ),
{
    lemma_sample_colors(ranking, i, s);
    let j = assignments[s] as int;
    assert(belongs(ranking, assignments, i, j));
    lemma_members_contains(ranking, assignments, j, ranking.len() as int, ranking[i]);
}

/// The entries of all the clusters' lists, taken together.
pub open spec fn all_members(clusters: Seq<ClusterView>) -> Multiset<(Color, usize)>
    decreases clusters.len(),
{
    if clusters.len() == 0 {
        Multiset::empty()
    } else {
        all_members(clusters.drop_last()).add(clusters.last().assignments.to_multiset())
    }
}

/// The lists of the clusters below `m`, over the first `n` entries, as one
/// multiset.
spec fn members_below(
    ranking: Seq<(Color, usize)>,
    assignments: Seq<usize>,
    m: int,
    n: int,
) -> Multiset<(Color, usize)>
    decreases m,
{
    if m <= 0 {
        Multiset::empty()
    } else {
        members_below(ranking, assignments, m - 1, n).add(
            members(ranking, assignments, m - 1, n).to_multiset(),
        )
    }
}

proof fn lemma_members_below_step(
    ranking: Seq<(Color, usize)>,
    assignments: Seq<usize>,
    m: int,
    n: int,
)
    requires
        0 < n <= ranking.len(),
        0 <= m,
    ensures
        ranking[n - 1].1 > 0 && assignments[sample_offset(ranking, n - 1)] < m ==> members_below(
            ranking,
            assignments,
            m,
            n,
        ) == members_below(ranking, assignments, m, n - 1).insert(ranking[n - 1]),
        !(ranking[n - 1].1 > 0 && assignments[sample_offset(ranking, n - 1)] < m)
            ==> members_below(ranking, assignments, m, n) == members_below(
            ranking,
            assignments,
            m,
            n - 1,
        ),
    decreases m,
{
    if m > 0 {
        lemma_members_below_step(ranking, assignments, m - 1, n);
        let before = members(ranking, assignments, m - 1, n - 1);
        if belongs(ranking, assignments, n - 1, m - 1) {
            to_multiset_build(before, ranking[n - 1]);
        }
    }
}

proof fn lemma_members_below_cover(
    ranking: Seq<(Color, usize)>,
    num_clusters: int,
    assignments: Seq<usize>,
    n: int,
)
    requires
        0 <= n <= ranking.len(),
        0 <= num_clusters,
        counts_positive(ranking),
        assignments.len() == total_samples(ranking),
        forall|s: int| 0 <= s < assignments.len() ==> #[trigger] assignments[s] < num_clusters,
    ensures
        members_below(ranking, assignments, num_clusters, n) == ranking.take(n).to_multiset(),
    decreases n,
{
    if n == 0 {
        lemma_members_below_empty(ranking, assignments, num_clusters);
        assert(ranking.take(0).to_multiset() =~= Multiset::empty()) by {
            ranking.take(0).to_multiset_ensures();
        }
    } else {
        lemma_members_below_cover(ranking, num_clusters, assignments, n - 1);
        lemma_members_below_step(ranking, assignments, num_clusters, n);
        lemma_first_sample_in_range(ranking, n - 1);
        assert(ranking.take(n) =~= ranking.take(n - 1).push(ranking[n - 1]));
        to_multiset_build(ranking.take(n - 1), ranking[n - 1]);
    }
}

proof fn lemma_members_below_empty(ranking: Seq<(Color, usize)>, assignments: Seq<usize>, m: int)
    ensures
        members_below(ranking, assignments, m, 0) == Multiset::<(Color, usize)>::empty(),
    decreases m,
{
    if m > 0 {
        lemma_members_below_empty(ranking, assignments, m - 1);
        let none = members(ranking, assignments, m - 1, 0);
        none.to_multiset_ensures();
    }
}

proof fn lemma_all_members_is_members_below(
    clusters: Seq<ClusterView>,
    ranking: Seq<(Color, usize)>,
    assignments: Seq<usize>,
    m: int,
)
    requires
        0 <= m <= clusters.len(),
        forall|j: int|
            0 <= j < clusters.len() ==> (#[trigger] clusters[j]).assignments == members(
                ranking,
                assignments,
                j,
                ranking.len() as int,
            ),
    ensures
        all_members(clusters.take(m)) == members_below(
            ranking,
            assignments,
            m,
            ranking.len() as int,
        ),
    decreases m,
{
    if m > 0 {
        lemma_all_members_is_members_below(clusters, ranking, assignments, m - 1);
        assert(clusters.take(m).drop_last() =~= clusters.take(m - 1));
    }
}

/// The clusters part the ranking: where every entry has at least one
/// sample, the lists of all clusters together hold each entry of the
/// ranking exactly as often as the ranking does, no entry lost and none
/// doubled.
pub proof fn lemma_clusters_partition_ranking(
    ranking: Seq<(Color, usize)>,
    num_clusters: int,
    assignments: Seq<usize>,
    centroids: Seq<(i64, i64, i64)>,
)
    requires
        0 <= num_clusters,
        counts_positive(ranking),
        clustered(ranking, num_clusters, assignments, centroids) is Ok,
    ensures
        all_members(clustered(ranking, num_clusters, assignments, centroids)->Ok_0)
            == ranking.to_multiset(),
{
    let clusters = clustered(ranking, num_clusters, assignments, centroids)->Ok_0;
    lemma_all_members_is_members_below(clusters, ranking, assignments, num_clusters);
    lemma_members_below_cover(ranking, num_clusters, assignments, ranking.len() as int);
    assert(clusters.take(num_clusters) =~= clusters);
    assert(ranking.take(ranking.len() as int) =~= ranking);
}

/// An entry stands in the list of cluster `j` exactly when some entry
/// equal to it belongs to `j`.
pub proof fn lemma_members_contains(
    ranking: Seq<(Color, usize)>,
    assignments: Seq<usize>,
    j: int,
    n: int,
    entry: (Color, usize),
)
    requires
        0 <= n <= ranking.len(),
    ensures
        members(ranking, assignments, j, n).contains(entry) <==> exists|i: int|
            0 <= i < n && #[trigger] belongs(ranking, assignments, i, j) && ranking[i] == entry,
    decreases n,
{
    if n > 0 {
        lemma_members_contains(ranking, assignments, j, n - 1, entry);
        let before = members(ranking, assignments, j, n - 1);
        if belongs(ranking, assignments, n - 1, j) {
            let now = before.push(ranking[n - 1]);
            if now.contains(entry) {
                let p = choose|p: int| 0 <= p < now.len() && now[p] == entry;
            }
            if before.contains(entry) {
                let p = choose|p: int| 0 <= p < before.len() && before[p] == entry;
                assert(now[p] == entry);
            }
            if ranking[n - 1] == entry {
                assert(now[now.len() - 1] == entry);
            }
        }
    }
}

/// Every colour of a well-formed ranking stands in one cluster's list and
/// in no other: in the list of the cluster that its first sample was
/// assigned to.
pub proof fn lemma_each_color_in_one_cluster(
    ranking: Seq<(Color, usize)>,
    num_clusters: int,
    assignments: Seq<usize>,
    centroids: Seq<(i64, i64, i64)>,
    i: int,
    j: int,
)
    requires
        0 <= num_clusters,
        counts_positive(ranking),
        colors_distinct(ranking),
        clustered(ranking, num_clusters, assignments, centroids) is Ok,
        0 <= i < ranking.len(),
        0 <= j < num_clusters,
    ensures
        0 <= assignments[sample_offset(ranking, i)] < num_clusters,
        clustered(ranking, num_clusters, assignments, centroids)->Ok_0[j].assignments.contains(
            ranking[i],
        ) <==> j == assignments[sample_offset(ranking, i)],
{
    lemma_first_sample_in_range(ranking, i);
    lemma_members_contains(ranking, assignments, j, ranking.len() as int, ranking[i]);
    if j == assignments[sample_offset(ranking, i)] {
        assert(belongs(ranking, assignments, i, j));
    }
}

/// Clustering is a function of its input: two results that the contract
/// of `create_color_clusters` admits for one ranking, one cluster count
/// and one k-means outcome are the same, cluster by cluster.
pub proof fn lemma_clustering_is_deterministic(
    ranking: Seq<(Color, usize)>,
    num_clusters: int,
    assignments: Seq<usize>,
    centroids: Seq<(i64, i64, i64)>,
    first: Seq<ColorCluster>,
    second: Seq<ColorCluster>,
)
    requires
        clustered(ranking, num_clusters, assignments, centroids) == Ok::<
            Seq<ClusterView>,
            PaletteError,
        >(cluster_views(first)),
        clustered(ranking, num_clusters, assignments, centroids) == Ok::<
            Seq<ClusterView>,
            PaletteError,
        >(cluster_views(second)),
    ensures
        first.len() == second.len(),
        forall|j: int|
            0 <= j < first.len() ==> (#[trigger] first[j]).centroid == second[j].centroid
                && first[j].assignments@ == second[j].assignments@,
{
    let views = clustered(ranking, num_clusters, assignments, centroids)->Ok_0;
    assert(first.len() == views.len() && second.len() == views.len());
    assert forall|j: int| 0 <= j < first.len() implies (#[trigger] first[j]).centroid
        == second[j].centroid && first[j].assignments@ == second[j].assignments@ by {
        assert(first[j]@ == views[j] && second[j]@ == views[j]);
    }
}

/// Where every entry has one sample, the samples stand at the places of
/// their entries.
proof fn lemma_single_samples_offset(ranking: Seq<(Color, usize)>, i: int)
    requires
        0 <= i <= ranking.len(),
        forall|q: int| 0 <= q < ranking.len() ==> (#[trigger] ranking[q]).1 == 1,
    ensures
        sample_offset(ranking, i) == i,
    decreases i,
{
    if i > 0 {
        lemma_single_samples_offset(ranking, i - 1);
    }
}

proof fn lemma_members_at_most_one(
    ranking: Seq<(Color, usize)>,
    assignments: Seq<usize>,
    j: int,
    n: int,
)
    requires
        0 <= n <= ranking.len(),
        assignments.len() == ranking.len(),
        forall|q: int| 0 <= q < ranking.len() ==> (#[trigger] ranking[q]).1 == 1,
        forall|s: int, t: int|
            0 <= s < t < assignments.len() ==> #[trigger] assignments[s] != #[trigger] assignments[t],
    ensures
        members(ranking, assignments, j, n).len() <= 1,
    decreases n,
{
    if n > 0 {
        lemma_members_at_most_one(ranking, assignments, j, n - 1);
        let before = members(ranking, assignments, j, n - 1);
        if belongs(ranking, assignments, n - 1, j) && before.len() >= 1 {
            let entry = before[0];
            lemma_members_contains(ranking, assignments, j, n - 1, entry);
            let i = choose|i: int|
                0 <= i < n - 1 && #[trigger] belongs(ranking, assignments, i, j) && ranking[i]
                    == entry;
            lemma_single_samples_offset(ranking, i);
            lemma_single_samples_offset(ranking, n - 1);
        }
    }
}

proof fn lemma_members_below_len(
    ranking: Seq<(Color, usize)>,
    assignments: Seq<usize>,
    m: int,
    empty: int,
)
    requires
        0 <= m,
        0 <= empty,
        assignments.len() == ranking.len(),
        forall|q: int| 0 <= q < ranking.len() ==> (#[trigger] ranking[q]).1 == 1,
        forall|s: int, t: int|
            0 <= s < t < assignments.len() ==> #[trigger] assignments[s] != #[trigger] assignments[t],
        members(ranking, assignments, empty, ranking.len() as int).len() == 0,
    ensures
        members_below(ranking, assignments, m, ranking.len() as int).len() <= m - (if empty < m {
            1int
        } else {
            0int
        }),
    decreases m,
{
    if m > 0 {
        lemma_members_below_len(ranking, assignments, m - 1, empty);
        lemma_members_at_most_one(ranking, assignments, m - 1, ranking.len() as int);
        members(ranking, assignments, m - 1, ranking.len() as int).to_multiset_ensures();
    }
}

/// With as many clusters as colours, one pixel of each colour, and an
/// outcome that gives every sample a cluster of its own, every cluster
/// holds exactly one colour.
pub proof fn lemma_own_cluster_for_each_color(
    ranking: Seq<(Color, usize)>,
    num_clusters: int,
    assignments: Seq<usize>,
    centroids: Seq<(i64, i64, i64)>,
    j: int,
)
    requires
        num_clusters == ranking.len(),
        forall|q: int| 0 <= q < ranking.len() ==> (#[trigger] ranking[q]).1 == 1,
        forall|s: int, t: int|
            0 <= s < t < assignments.len() ==> #[trigger] assignments[s] != #[trigger] assignments[t],
        clustered(ranking, num_clusters, assignments, centroids) is Ok,
        0 <= j < num_clusters,
    ensures
        clustered(ranking, num_clusters, assignments, centroids)->Ok_0[j].assignments.len() == 1,
{
    let n = ranking.len() as int;
    lemma_single_samples_offset(ranking, n);
    lemma_members_at_most_one(ranking, assignments, j, n);
    if members(ranking, assignments, j, n).len() == 0 {
        lemma_members_below_len(ranking, assignments, num_clusters, j);
        lemma_members_below_cover(ranking, num_clusters, assignments, n);
        assert(ranking.take(n) =~= ranking);
        ranking.to_multiset_ensures();
    }
}

/// The centre that stands exactly on a colour: its channels, scaled to
/// the range 0 to 255.
pub open spec fn centre_on(c: Color) -> (i64, i64, i64) {
    (c.red as i64, c.green as i64, c.blue as i64)
}

/// Under the same conditions every colour is a cluster of its own: the
/// cluster of its sample lists this colour and no other. Where the centre
/// of that cluster stands on the colour, the centroid is the colour, and
/// where the centre lies within one of the colour on each channel, so
/// does the centroid.
pub proof fn lemma_color_alone_in_its_cluster(
    ranking: Seq<(Color, usize)>,
    num_clusters: int,
    assignments: Seq<usize>,
    centroids: Seq<(i64, i64, i64)>,
    i: int,
)
    requires
        num_clusters == ranking.len(),
        forall|q: int| 0 <= q < ranking.len() ==> (#[trigger] ranking[q]).1 == 1,
        forall|s: int, t: int|
            0 <= s < t < assignments.len() ==> #[trigger] assignments[s] != #[trigger] assignments[t],
        clustered(ranking, num_clusters, assignments, centroids) is Ok,
        0 <= i < ranking.len(),
    ensures
        0 <= assignments[i] < num_clusters,
        clustered(ranking, num_clusters, assignments, centroids)->Ok_0[assignments[i] as int].assignments
            == seq![ranking[i]],
        centroids[assignments[i] as int] == centre_on(ranking[i].0) ==> clustered(
            ranking,
            num_clusters,
            assignments,
            centroids,
        )->Ok_0[assignments[i] as int].centroid == ranking[i].0,
        centre_near(centroids[assignments[i] as int], ranking[i].0, 1) ==> centre_near(
            centre_on(
                clustered(ranking, num_clusters, assignments, centroids)->Ok_0[assignments[i] as int].centroid,
            ),
            ranking[i].0,
            1,
        ),
{
    let n = ranking.len() as int;
    let j = assignments[i] as int;
    lemma_single_samples_offset(ranking, n);
    lemma_single_samples_offset(ranking, i);
    lemma_own_cluster_for_each_color(ranking, num_clusters, assignments, centroids, j);
    assert(belongs(ranking, assignments, i, j));
    lemma_members_contains(ranking, assignments, j, n, ranking[i]);
}

/// Channel by channel, `centre` lies within `slack` of the colour `c`.
pub open spec fn centre_near(centre: (i64, i64, i64), c: Color, slack: int) -> bool {
    &&& -slack <= centre.0 - c.red <= slack
    &&& -slack <= centre.1 - c.green <= slack
    &&& -slack <= centre.2 - c.blue <= slack
}

/// Cutting a centre to bytes takes it no further from a colour: where the
/// centre lies within `slack` of a colour on each channel, so does the
/// centroid. With a slack of one this is a centroid that equals the
/// colour within rounding.
pub proof fn lemma_centroid_stays_near(centre: (i64, i64, i64), c: Color, slack: int)
    requires
        centre_near(centre, c, slack),
    ensures
        centre_near(centre_on(centroid_color(centre)), c, slack),
{
}

} // verus!
