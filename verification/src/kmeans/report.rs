//! The report of a clustering experiment.
use vstd::prelude::*;
use vstd::string::*;
use crate::decimal::{decimal, digits, format_tenths, tenths};
use crate::fraction::ONE_BITS;
use crate::kmeans::balance::{
    balance_from_sizes, bytes_in_words, cluster_sizes, format_bytes, is_largest, is_least, members,
    min_median_max, size_keys, sorted_sizes, sum_of,
};
use crate::kmeans::duplication::{duplicated_cluster_sizes, total_members};
use crate::kmeans::experiment::{vector_bytes, KMeansExperiment};
use crate::quantization::experiment::texts;
use crate::ranking::{is_stable_order, lemma_order_of, stable_order};
use crate::significand::{
    lemma_round_nearest_error, round_nearest, round_significand, SINGLE_LIMIT,
};

verus! {

/// Titles of the recall columns, one for each of the first `n` cut-offs.
pub open spec fn recall_columns(recall_k: Seq<usize>, n: nat) -> Seq<Seq<char>> {
    Seq::new(n, |i: int| "r@"@ + digits(recall_k[i] as nat))
}

/// Titles of all columns.
pub open spec fn kmeans_titles(recall_k: Seq<usize>) -> Seq<Seq<char>> {
    seq!["variant"@, "ratio"@, "k"@, "total_ms"@, "fanout"@] + recall_columns(
        recall_k,
        recall_k.len(),
    ) + seq!["min_size"@, "median_size"@, "max_size"@, "memory"@, "disk"@]
}

/// The header of the report.
pub fn kmeans_header(recall_k: &[usize]) -> (r: Vec<String>)
    ensures
        texts(r@) == kmeans_titles(recall_k@),
{
    let mut r: Vec<String> = Vec::new();
    r.push("variant".to_owned());
    r.push("ratio".to_owned());
    r.push("k".to_owned());
    r.push("total_ms".to_owned());
    r.push("fanout".to_owned());
    let ghost first = seq!["variant"@, "ratio"@, "k"@, "total_ms"@, "fanout"@];
    proof {
        assert(texts(r@) =~= first + recall_columns(recall_k@, 0));
    }
    for i in 0..recall_k.len()
        invariant
            texts(r@) == first + recall_columns(recall_k@, i as nat),
    {
        let ghost before = r@;
        let title = "r@".to_owned().concat(decimal(recall_k[i] as u64).as_str());
        r.push(title);
        proof {
            assert(texts(r@) =~= texts(before).push(title@));
            assert(texts(r@) =~= first + recall_columns(recall_k@, (i + 1) as nat));
        }
    }
    let ghost before = r@;
    r.push("min_size".to_owned());
    r.push("median_size".to_owned());
    r.push("max_size".to_owned());
    r.push("memory".to_owned());
    r.push("disk".to_owned());
    proof {
        assert(texts(r@) =~= texts(before) + seq![
            "min_size"@,
            "median_size"@,
            "max_size"@,
            "memory"@,
            "disk"@,
        ]);
        assert(texts(r@) =~= kmeans_titles(recall_k@));
    }
    r
}

impl KMeansExperiment {
    /// Whether vectors near a boundary are copied: there must be room for more
    /// than one cluster, and the ratio must be above one.
    pub fn duplicates(&self) -> (r: bool)
        ensures
            r == (self.duplicate_max > 1 && ONE_BITS < self.duplicate_ratio <= 0x7f80_0000),
    {
        self.duplicate_max > 1 && ONE_BITS < self.duplicate_ratio && self.duplicate_ratio
            <= 0x7f80_0000
    }

    /// The name of the way clusters are made.
    pub fn variant_label(&self) -> (r: &'static str)
        ensures
            self.hierarchical ==> r@ == "hierarchical"@,
            !self.hierarchical ==> r@ == "vanilla"@,
    {
        if self.hierarchical {
            "hierarchical"
        } else {
            "vanilla"
        }
    }

    /// The sizes of the clusters: with copies where vectors are copied.
    pub fn reported_sizes(
        &self,
        primary: &[u32],
        lists: &[Vec<u32>],
        k: usize,
    ) -> (sizes: Vec<u32>)
        requires
            primary@.len() <= u32::MAX,
            forall|i: int| 0 <= i < primary@.len() ==> #[trigger] primary@[i] < k,
            self.duplicate_max > 1 && ONE_BITS < self.duplicate_ratio <= 0x7f80_0000 ==> {
                &&& forall|i: int, j: int|
                    0 <= i < lists@.len() && 0 <= j < lists@[i]@.len()
                        ==> #[trigger] lists@[i]@[j] < k
                &&& forall|c: int|
                    0 <= c < k ==> #[trigger] total_members(lists@, lists@.len(), c) <= u32::MAX
            },
        ensures
            sizes@.len() == k,
            self.duplicate_max > 1 && ONE_BITS < self.duplicate_ratio <= 0x7f80_0000 ==> forall|
                c: int,
            |
                0 <= c < k ==> #[trigger] sizes@[c] == total_members(lists@, lists@.len(), c),
            !(self.duplicate_max > 1 && ONE_BITS < self.duplicate_ratio <= 0x7f80_0000) ==> forall|
                c: int,
            |
                0 <= c < k ==> #[trigger] sizes@[c] == members(primary@, primary@.len(), c),
    {
        if self.duplicates() {
            duplicated_cluster_sizes(lists, k)
        } else {
            cluster_sizes(primary, primary.len(), k)
        }
    }
}

/// The median of sizes in words: with one decimal, as single precision holds
/// it.
pub open spec fn median_in_words(sorted: Seq<u32>) -> Seq<char> {
    let limit = SINGLE_LIMIT as nat;
    let mid = sorted.len() as int / 2;
    if sorted.len() == 0 {
        tenths(0)
    } else if sorted.len() % 2 == 1 {
        tenths(10 * round_nearest(sorted[mid] as nat, limit))
    } else {
        tenths(
            5 * round_nearest(
                round_nearest(sorted[mid - 1] as nat, limit) + round_nearest(
                    sorted[mid] as nat,
                    limit,
                ),
                limit,
            ),
        )
    }
}

/// The last columns of a row: what is known of the sizes of the clusters.
pub struct SizeCells {
    pub min: String,
    pub median: String,
    pub max: String,
    pub memory: String,
    pub disk: String,
}

/// `cells` tell of `k` clusters with these sizes, of vectors with `dims`
/// four-byte coordinates: the least, the middle and the largest size, the bytes
/// of the centroids and those of all vectors in the clusters.
pub open spec fn tells_of(cells: SizeCells, sizes: Seq<u32>, k: int, dims: int) -> bool {
    &&& exists|m: u32| #[trigger]
        is_least(sizes, sizes.len() as int, m) && cells.min@ == digits(m as nat)
    &&& cells.median@ == median_in_words(sorted_sizes(sizes))
    &&& exists|m: u32| #[trigger]
        is_largest(sizes, sizes.len() as int, m) && cells.max@ == digits(m as nat)
    &&& cells.memory@ == bytes_in_words((k * (dims * 4)) as u64)
    &&& cells.disk@ == bytes_in_words((sum_of(sizes, sizes.len()) * (dims * 4)) as u64)
}

/// The sizes, rising.
fn sort_sizes(sizes: &[u32]) -> (sorted: Vec<u32>)
    ensures
        sorted@ == sorted_sizes(sizes@),
{
    let mut keys: Vec<u64> = Vec::new();
    for i in 0..sizes.len()
        invariant
            keys@.len() == i,
            forall|j: int| 0 <= j < i ==> #[trigger] keys@[j] == sizes@[j],
    {
        keys.push(sizes[i] as u64);
    }
    let order = stable_order(&keys);
    let mut sorted: Vec<u32> = Vec::new();
    for i in 0..sizes.len()
        invariant
            keys@.len() == sizes@.len(),
            is_stable_order(keys@, order@),
            sorted@.len() == i,
            forall|j: int| 0 <= j < i ==> #[trigger] sorted@[j] == sizes@[order@[j] as int],
    {
        sorted.push(sizes[order[i]]);
    }
    proof {
        assert(keys@ =~= size_keys(sizes@));
        lemma_order_of(keys@, order@);
        assert(sorted@ =~= sorted_sizes(sizes@));
    }
    sorted
}

/// The median of sizes in words.
pub fn median_text(sizes: &[u32]) -> (r: String)
    ensures
        r@ == median_in_words(sorted_sizes(sizes@)),
{
    let sorted = sort_sizes(sizes);
    let n: usize = sorted.len();
    if n == 0 {
        return format_tenths(0);
    }
    let mid: usize = n / 2;
    let ghost limit = SINGLE_LIMIT as nat;
    proof {
        lemma_round_nearest_error(sorted@[mid as int] as nat, limit);
    }
    let b: u128 = round_significand(sorted[mid] as u128, SINGLE_LIMIT);
    if n % 2 == 1 {
        return format_tenths((10 * b) as u64);
    }
    proof {
        lemma_round_nearest_error(sorted@[mid - 1] as nat, limit);
    }
    let a: u128 = round_significand(sorted[mid - 1] as u128, SINGLE_LIMIT);
    proof {
        lemma_round_nearest_error((a + b) as nat, limit);
    }
    format_tenths((5 * round_significand(a + b, SINGLE_LIMIT)) as u64)
}

/// What is known of the sizes of `k` clusters.
pub fn size_cells(sizes: &[u32], k: usize, dims: usize) -> (cells: SizeCells)
    requires
        sizes@.len() <= u32::MAX,
        dims * 4 <= usize::MAX,
        k * (dims * 4) <= u64::MAX,
        sum_of(sizes@, sizes@.len()) * (dims * 4) <= u64::MAX,
    ensures
        tells_of(cells, sizes@, k as int, dims as int),
{
    let sums = balance_from_sizes(sizes);
    let range = min_median_max(sizes);
    proof {
        assert(is_least(sizes@, sizes@.len() as int, range.0));
        assert(is_largest(sizes@, sizes@.len() as int, range.2));
    }
    let memory: u64 = vector_bytes(k as u64, dims);
    let disk: u64 = vector_bytes(sums.total, dims);
    SizeCells {
        min: decimal(range.0 as u64),
        median: median_text(sizes),
        max: decimal(range.2 as u64),
        memory: format_bytes(memory),
        disk: format_bytes(disk),
    }
}

/// The recall of an experiment in words: how many clusters are visited, and for
/// each cut-off and number of clusters the recall.
pub struct RecallCells {
    pub fanouts: Vec<String>,
    pub values: Vec<Vec<String>>,
}

/// The texts of column `n` of the values, for the first `m` cut-offs.
pub open spec fn value_column(values: Seq<Vec<String>>, n: int, m: nat) -> Seq<Seq<char>> {
    Seq::new(m, |i: int| values[i]@[n]@)
}

/// The first columns of a row.
pub open spec fn first_cells(
    variant: Seq<char>,
    ratio: Seq<char>,
    k: usize,
    total: Seq<char>,
    fanout: Seq<char>,
) -> Seq<Seq<char>> {
    seq![variant, ratio, digits(k as nat), total, fanout]
}

/// The last columns of a row.
pub open spec fn last_cells(cells: SizeCells) -> Seq<Seq<char>> {
    seq![cells.min@, cells.median@, cells.max@, cells.memory@, cells.disk@]
}

fn start_row(variant: &str, ratio: &str, k: usize, total: &str, fanout: &str) -> (r: Vec<String>)
    ensures
        texts(r@) == first_cells(variant@, ratio@, k, total@, fanout@),
{
    let mut r: Vec<String> = Vec::new();
    r.push(variant.to_owned());
    r.push(ratio.to_owned());
    r.push(decimal(k as u64));
    r.push(total.to_owned());
    r.push(fanout.to_owned());
    proof {
        assert(texts(r@) =~= first_cells(variant@, ratio@, k, total@, fanout@));
    }
    r
}

fn end_row(r: &mut Vec<String>, cells: &SizeCells)
    ensures
        texts(final(r)@) == texts(old(r)@) + last_cells(*cells),
{
    let ghost before = r@;
    r.push(cells.min.clone());
    r.push(cells.median.clone());
    r.push(cells.max.clone());
    r.push(cells.memory.clone());
    r.push(cells.disk.clone());
    proof {
        assert(texts(r@) =~= texts(before) + last_cells(*cells));
    }
}

/// The rows of one ratio: one for each number of visited clusters, or a single
/// row without recall.
pub fn ratio_rows(
    variant: &str,
    ratio: &str,
    k: usize,
    total: &str,
    recall: &Option<RecallCells>,
    n_cut_offs: usize,
    sizes: &SizeCells,
) -> (rows: Vec<Vec<String>>)
    requires
        recall matches Some(cells) ==> {
            &&& cells.values@.len() == n_cut_offs
            &&& forall|i: int|
                0 <= i < n_cut_offs ==> (#[trigger] cells.values@[i])@.len()
                    == cells.fanouts@.len()
        },
    ensures
        recall matches Some(cells) ==> {
            &&& rows@.len() == cells.fanouts@.len()
            &&& forall|n: int|
                0 <= n < rows@.len() ==> texts((#[trigger] rows@[n])@) == first_cells(
                    variant@,
                    ratio@,
                    k,
                    total@,
                    cells.fanouts@[n]@,
                ) + value_column(cells.values@, n, n_cut_offs as nat) + last_cells(*sizes)
        },
        recall is None ==> {
            &&& rows@.len() == 1
            &&& texts(rows@[0]@) == first_cells(variant@, ratio@, k, total@, "-"@) + Seq::new(
                n_cut_offs as nat,
                |i: int| "-"@,
            ) + last_cells(*sizes)
        },
{
    let mut rows: Vec<Vec<String>> = Vec::new();
    match recall {
        Some(cells) => {
            for n in 0..cells.fanouts.len()
                invariant
                    cells.values@.len() == n_cut_offs,
                    forall|i: int|
                        0 <= i < n_cut_offs ==> (#[trigger] cells.values@[i])@.len()
                            == cells.fanouts@.len(),
                    rows@.len() == n,
                    forall|m: int|
                        0 <= m < n ==> texts((#[trigger] rows@[m])@) == first_cells(
                            variant@,
                            ratio@,
                            k,
                            total@,
                            cells.fanouts@[m]@,
                        ) + value_column(cells.values@, m, n_cut_offs as nat) + last_cells(*sizes),
            {
                let mut row = start_row(variant, ratio, k, total, cells.fanouts[n].as_str());
                let ghost first = texts(row@);
                proof {
                    assert(first + value_column(cells.values@, n as int, 0) =~= first);
                }
                for i in 0..n_cut_offs
                    invariant
                        n < cells.fanouts@.len(),
                        cells.values@.len() == n_cut_offs,
                        forall|i: int|
                            0 <= i < n_cut_offs ==> (#[trigger] cells.values@[i])@.len()
                                == cells.fanouts@.len(),
                        texts(row@) == first + value_column(cells.values@, n as int, i as nat),
                {
                    let ghost before = row@;
                    let values = &cells.values[i];
                    row.push(values[n].clone());
                    proof {
                        assert(texts(row@) =~= texts(before).push(values@[n as int]@));
                        assert(texts(row@) =~= first + value_column(
                            cells.values@,
                            n as int,
                            (i + 1) as nat,
                        ));
                    }
                }
                end_row(&mut row, sizes);
                rows.push(row);
            }
        },
        None => {
            let mut row = start_row(variant, ratio, k, total, "-");
            let ghost first = texts(row@);
            proof {
                assert(first + Seq::new(0, |i: int| "-"@) =~= first);
            }
            for i in 0..n_cut_offs
                invariant
                    texts(row@) == first + Seq::new(i as nat, |i: int| "-"@),
            {
                let ghost before = row@;
                row.push("-".to_owned());
                proof {
                    assert(texts(row@) =~= texts(before).push("-"@));
                    assert(texts(row@) =~= first + Seq::new((i + 1) as nat, |i: int| "-"@));
                }
            }
            end_row(&mut row, sizes);
            rows.push(row);
        },
    }
    rows
}

} // verus!
