//! A recall experiment: what it runs and what it reports.
use vstd::prelude::*;
use vstd::string::*;
use crate::decimal::{decimal, digits};
use crate::quantization::factory::{
    selected_quantizers, specs_of, variant_among_all, variants_of, QuantizerKind, QuantizerSpec,
    QuantizerVariant, UnsupportedVariant,
};

verus! {

/// Settings of the experiment.
#[derive(Debug, Clone)]
pub struct QuantizationRecallExperiment {
    pub quantizer: QuantizerKind,
    pub variant: QuantizerVariant,
    pub k: Vec<usize>,
    pub queries: usize,
    pub transposed: bool,
    pub seed: u64,
    pub pdx_chunk_size: usize,
}

/// Why the experiment cannot run.
#[derive(Debug, Clone, Copy, PartialEq, Eq, Structural)]
pub enum PlanError {
    NoCutOffs,
    NoQueries,
    Unsupported(UnsupportedVariant),
}

impl PlanError {
    /// The error in words.
    pub fn message(&self) -> (r: String)
        ensures
            *self == PlanError::NoCutOffs ==> r@ == "k_values must not be empty"@,
            *self == PlanError::NoQueries ==> r@ == "queries must be greater than zero"@,
            self matches PlanError::Unsupported(e) ==> r@ == crate::quantization::factory::kind_name(
                e.kind,
            ) + " does not support the "@ + crate::quantization::factory::variant_name(e.variant)
                + " variant"@,
    {
        match self {
            PlanError::NoCutOffs => "k_values must not be empty".to_owned(),
            PlanError::NoQueries => "queries must be greater than zero".to_owned(),
            PlanError::Unsupported(e) => e.message(),
        }
    }
}

/// What the experiment runs: how many documents a query ranks, how many queries
/// there are, and which quantizers.
pub struct RecallPlan {
    pub max_k: usize,
    pub query_count: usize,
    pub specs: Vec<QuantizerSpec>,
}

/// `m` is the largest of `ks`.
pub open spec fn is_max(ks: Seq<usize>, m: usize) -> bool {
    &&& exists|i: int| 0 <= i < ks.len() && ks[i] == m
    &&& forall|i: int| 0 <= i < ks.len() ==> #[trigger] ks[i] <= m
}

/// Queries that are run: as many as asked for, but no more than there are
/// queries with a known truth.
pub open spec fn query_count_of(queries: usize, n_queries: usize, n_truth: usize) -> usize {
    let a = if queries <= n_queries {
        queries
    } else {
        n_queries
    };
    if a <= n_truth {
        a
    } else {
        n_truth
    }
}

impl QuantizationRecallExperiment {
    /// Plans a run over a data set with `n_queries` queries, of which the first
    /// `n_truth` have a known truth.
    pub fn plan(&self, n_queries: usize, n_truth: usize) -> (r: Result<RecallPlan, PlanError>)
        ensures
            self.k@.len() == 0 ==> r == Err::<RecallPlan, PlanError>(PlanError::NoCutOffs),
            self.k@.len() > 0 && query_count_of(self.queries, n_queries, n_truth) == 0 ==> r
                == Err::<RecallPlan, PlanError>(PlanError::NoQueries),
            self.k@.len() > 0 && query_count_of(self.queries, n_queries, n_truth) > 0 ==> {
                &&& self.quantizer != QuantizerKind::All && variants_of(
                    self.quantizer,
                    self.variant,
                ) is None ==> r == Err::<RecallPlan, PlanError>(
                    PlanError::Unsupported(
                        UnsupportedVariant { kind: self.quantizer, variant: self.variant },
                    ),
                )
                &&& self.quantizer == QuantizerKind::All || variants_of(
                    self.quantizer,
                    self.variant,
                ) is Some ==> (r matches Ok(plan) && {
                    &&& is_max(self.k@, plan.max_k)
                    &&& plan.query_count == query_count_of(self.queries, n_queries, n_truth)
                    &&& self.quantizer != QuantizerKind::All ==> plan.specs@ == specs_of(
                        self.quantizer,
                        variants_of(self.quantizer, self.variant)->0,
                    )
                    &&& self.quantizer == QuantizerKind::All ==> plan.specs@ == specs_of(
                        QuantizerKind::Turboquant,
                        variants_of(
                            QuantizerKind::Turboquant,
                            variant_among_all(QuantizerKind::Turboquant, self.variant),
                        )->0,
                    ) + specs_of(
                        QuantizerKind::Rabitq,
                        variants_of(
                            QuantizerKind::Rabitq,
                            variant_among_all(QuantizerKind::Rabitq, self.variant),
                        )->0,
                    ) + specs_of(QuantizerKind::Naivesq, seq![QuantizerVariant::Default])
                })
            },
    {
        if self.k.len() == 0 {
            return Err(PlanError::NoCutOffs);
        }
        let mut max_k: usize = self.k[0];
        for i in 1..self.k.len()
            invariant
                0 < self.k@.len(),
                exists|j: int| 0 <= j < i && self.k@[j] == max_k,
                forall|j: int| 0 <= j < i ==> #[trigger] self.k@[j] <= max_k,
        {
            proof {
                let j = choose|j: int| 0 <= j < i && self.k@[j] == max_k;
                assert(0 <= j < i + 1 && self.k@[j] == max_k);
                assert(0 <= i < i + 1 && self.k@[i as int] == self.k@[i as int]);
            }
            if self.k[i] > max_k {
                max_k = self.k[i];
            }
        }
        let asked: usize = if self.queries <= n_queries {
            self.queries
        } else {
            n_queries
        };
        let query_count: usize = if asked <= n_truth {
            asked
        } else {
            n_truth
        };
        if query_count == 0 {
            return Err(PlanError::NoQueries);
        }
        match selected_quantizers(self.quantizer, self.variant) {
            Ok(specs) => Ok(RecallPlan { max_k, query_count, specs }),
            Err(e) => Err(PlanError::Unsupported(e)),
        }
    }

    /// The layout that progress messages name: vectors that were asked for in transposed
    /// form but cannot have it are marked.
    pub fn layout_label(&self, transposed_enabled: bool, scoring_layout: &'static str) -> (r:
        &'static str)
        ensures
            self.transposed && !transposed_enabled ==> r@ == "doc-major-unsupported"@,
            !(self.transposed && !transposed_enabled) ==> r@ == scoring_layout@,
    {
        if self.transposed && !transposed_enabled {
            "doc-major-unsupported"
        } else {
            scoring_layout
        }
    }
}

/// The bytes that a row reports: those of the quantizer where it counts them,
/// otherwise those of one vector times the number of vectors.
pub fn reported_bytes(total_bytes: usize, bytes_per_vector: usize, n_docs: usize) -> (r: usize)
    requires
        total_bytes == 0 ==> bytes_per_vector * n_docs <= usize::MAX,
    ensures
        r == if total_bytes == 0 {
            bytes_per_vector * n_docs
        } else {
            total_bytes as int
        },
{
    if total_bytes == 0 {
        bytes_per_vector * n_docs
    } else {
        total_bytes
    }
}

/// Column titles of the report.
pub open spec fn recall_titles() -> Seq<Seq<char>> {
    seq![
        "method"@,
        "variant"@,
        "bits"@,
        "bytes_per_vector"@,
        "total_bytes"@,
        "compression_x"@,
        "k"@,
        "recall"@,
        "ndcg"@,
        "encode_seconds"@,
        "query_seconds"@,
        "qps"@,
    ]
}

/// The texts of some cells.
pub open spec fn texts(cells: Seq<String>) -> Seq<Seq<char>> {
    Seq::new(cells.len(), |i: int| cells[i]@)
}

/// An empty report with its header.
pub fn recall_header() -> (r: Vec<String>)
    ensures
        texts(r@) == recall_titles(),
{
    let mut r: Vec<String> = Vec::new();
    r.push("method".to_owned());
    r.push("variant".to_owned());
    r.push("bits".to_owned());
    r.push("bytes_per_vector".to_owned());
    r.push("total_bytes".to_owned());
    r.push("compression_x".to_owned());
    r.push("k".to_owned());
    r.push("recall".to_owned());
    r.push("ndcg".to_owned());
    r.push("encode_seconds".to_owned());
    r.push("query_seconds".to_owned());
    r.push("qps".to_owned());
    proof {
        assert(texts(r@) =~= recall_titles());
    }
    r
}

/// Measured numbers of a row, in words.
pub struct Measured {
    pub compression: String,
    pub recall: String,
    pub ndcg: String,
    pub encode_seconds: String,
    pub query_seconds: String,
    pub qps: String,
}

/// A row of the report.
pub fn recall_row(
    method: &str,
    variant: &str,
    bits: u8,
    bytes_per_vector: usize,
    total_bytes: usize,
    k: usize,
    measured: Measured,
) -> (r: Vec<String>)
    ensures
        texts(r@) == seq![
            method@,
            variant@,
            digits(bits as nat),
            digits(bytes_per_vector as nat),
            digits(total_bytes as nat),
            measured.compression@,
            digits(k as nat),
            measured.recall@,
            measured.ndcg@,
            measured.encode_seconds@,
            measured.query_seconds@,
            measured.qps@,
        ],
        r@.len() == recall_titles().len(),
{
    let ghost goal = seq![
        method@,
        variant@,
        digits(bits as nat),
        digits(bytes_per_vector as nat),
        digits(total_bytes as nat),
        measured.compression@,
        digits(k as nat),
        measured.recall@,
        measured.ndcg@,
        measured.encode_seconds@,
        measured.query_seconds@,
        measured.qps@,
    ];
    let mut r: Vec<String> = Vec::new();
    r.push(method.to_owned());
    r.push(variant.to_owned());
    r.push(decimal(bits as u64));
    r.push(decimal(bytes_per_vector as u64));
    r.push(decimal(total_bytes as u64));
    r.push(measured.compression);
    r.push(decimal(k as u64));
    r.push(measured.recall);
    r.push(measured.ndcg);
    r.push(measured.encode_seconds);
    r.push(measured.query_seconds);
    r.push(measured.qps);
    proof {
        assert(texts(r@) =~= goal);
    }
    r
}

/// As many queries run as are asked for, as there are, and as have a known truth,
/// whichever is the least.
pub proof fn law_query_count_is_the_least(queries: usize, n_queries: usize, n_truth: usize)
    ensures
        ({
            let r = query_count_of(queries, n_queries, n_truth);
            &&& r <= queries && r <= n_queries && r <= n_truth
            &&& r == queries || r == n_queries || r == n_truth
        }),
{
}

} // verus!
