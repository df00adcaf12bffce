//! The data sets that experiments run on.
use vstd::prelude::*;
use vstd::string::*;
use crate::decimal::{decimal, digits};

verus! {

pub const COHERE_DIMS: usize = 768;

pub const OPENAI_DIMS: usize = 1536;

pub const BIOASQ_DIMS: usize = 1024;

/// Name of a data set, where its files lie, and the length of its vectors.
#[derive(Debug, Clone, Copy)]
pub struct DatasetSpec {
    pub name: &'static str,
    pub source_name: &'static str,
    pub dir_name: &'static str,
    pub dims: usize,
}

/// A path with one more part: a slash is put between where there is none.
pub open spec fn path_join(root: Seq<char>, part: Seq<char>) -> Seq<char> {
    if root.len() == 0 || root.last() == '/' {
        root + part
    } else {
        root + "/"@ + part
    }
}

fn join_path(root: &str, part: &str) -> (r: String)
    ensures
        r@ == path_join(root@, part@),
{
    let n: usize = root.unicode_len();
    let ends: bool = if n == 0 {
        true
    } else {
        root.get_char(n - 1) == '/'
    };
    if ends {
        root.to_owned().concat(part)
    } else {
        root.to_owned().concat("/").concat(part)
    }
}

impl DatasetSpec {
    /// The directory of the data set under the root of all data sets.
    pub fn data_dir(self, dataset_root: &str) -> (r: String)
        ensures
            r@ == path_join(path_join(dataset_root@, self.source_name@), self.dir_name@),
    {
        join_path(join_path(dataset_root, self.source_name).as_str(), self.dir_name)
    }

    /// Where a file of the data set can be fetched from.
    pub fn file_url(self, file: &str) -> (r: String)
        ensures
            r@ == "https://assets.zilliz.com/benchmark/"@ + self.dir_name@ + "/"@ + file@,
    {
        "https://assets.zilliz.com/benchmark/".to_owned().concat(self.dir_name).concat("/").concat(
            file,
        )
    }
}

/// One million vectors of 768 dimensions.
pub fn cohere_medium() -> (r: DatasetSpec)
    ensures
        r.name@ == "cohere-medium"@,
        r.source_name@ == "cohere"@,
        r.dir_name@ == "cohere_medium_1m"@,
        r.dims == 768,
{
    DatasetSpec {
        name: "cohere-medium",
        source_name: "cohere",
        dir_name: "cohere_medium_1m",
        dims: COHERE_DIMS,
    }
}

/// Half a million vectors of 1536 dimensions.
pub fn openai_medium() -> (r: DatasetSpec)
    ensures
        r.name@ == "openai-medium"@,
        r.source_name@ == "openai"@,
        r.dir_name@ == "openai_medium_500k"@,
        r.dims == 1536,
{
    DatasetSpec {
        name: "openai-medium",
        source_name: "openai",
        dir_name: "openai_medium_500k",
        dims: OPENAI_DIMS,
    }
}

/// One million vectors of 1024 dimensions.
pub fn bioasq_medium() -> (r: DatasetSpec)
    ensures
        r.name@ == "bioasq-medium"@,
        r.source_name@ == "bioasq"@,
        r.dir_name@ == "bioasq_medium_1m"@,
        r.dims == 1024,
{
    DatasetSpec {
        name: "bioasq-medium",
        source_name: "bioasq",
        dir_name: "bioasq_medium_1m",
        dims: BIOASQ_DIMS,
    }
}

/// The data sets that can be asked for.
#[derive(Debug, Clone, Copy, PartialEq, Eq, Structural)]
pub enum DatasetArg {
    All,
    CohereMedium,
    OpenaiMedium,
    BioasqMedium,
}

/// Data set number `i` of those that `arg` stands for, by name.
pub open spec fn arg_names(arg: DatasetArg) -> Seq<Seq<char>> {
    match arg {
        DatasetArg::All => seq!["cohere-medium"@, "openai-medium"@, "bioasq-medium"@],
        DatasetArg::CohereMedium => seq!["cohere-medium"@],
        DatasetArg::OpenaiMedium => seq!["openai-medium"@],
        DatasetArg::BioasqMedium => seq!["bioasq-medium"@],
    }
}

/// `spec` is the built-in data set of its name.
pub open spec fn is_built_in(spec: DatasetSpec) -> bool {
    ||| spec.name@ == "cohere-medium"@ && spec.source_name@ == "cohere"@ && spec.dir_name@
        == "cohere_medium_1m"@ && spec.dims == 768
    ||| spec.name@ == "openai-medium"@ && spec.source_name@ == "openai"@ && spec.dir_name@
        == "openai_medium_500k"@ && spec.dims == 1536
    ||| spec.name@ == "bioasq-medium"@ && spec.source_name@ == "bioasq"@ && spec.dir_name@
        == "bioasq_medium_1m"@ && spec.dims == 1024
}

impl DatasetArg {
    /// The data sets that are asked for, in order.
    pub fn specs(self) -> (r: Vec<DatasetSpec>)
        ensures
            r@.len() == arg_names(self).len(),
            forall|i: int|
                0 <= i < r@.len() ==> (#[trigger] r@[i]).name@ == arg_names(self)[i] && is_built_in(
                    r@[i],
                ),
    {
        let mut r: Vec<DatasetSpec> = Vec::new();
        match self {
            DatasetArg::All => {
                r.push(cohere_medium());
                r.push(openai_medium());
                r.push(bioasq_medium());
            },
            DatasetArg::CohereMedium => {
                r.push(cohere_medium());
            },
            DatasetArg::OpenaiMedium => {
                r.push(openai_medium());
            },
            DatasetArg::BioasqMedium => {
                r.push(bioasq_medium());
            },
        }
        r
    }
}

/// Where data sets are kept unless another place is given.
pub fn default_dataset_root() -> (r: &'static str)
    ensures
        r@ == "/tmp/vectordb_bench/dataset"@,
{
    "/tmp/vectordb_bench/dataset"
}

/// What is wrong with the rows of a file.
#[derive(Debug, Clone, Copy, PartialEq, Eq, Structural)]
pub enum RowError {
    /// A vector has another length than the data set.
    WrongDims { expected: usize, got: usize },
    /// The file has fewer rows than asked for.
    TooFewRows { expected: usize, got: usize },
}

impl RowError {
    /// The error in words, for rows that were read from `path`.
    pub fn message(&self, path: &str) -> (r: String)
        ensures
            self matches RowError::WrongDims { expected, got } ==> r@ == "expected dim "@ + digits(
                expected as nat,
            ) + ", got "@ + digits(got as nat),
            self matches RowError::TooFewRows { expected, got } ==> r@ == "expected "@ + digits(
                expected as nat,
            ) + " rows from "@ + path@ + ", got "@ + digits(got as nat),
    {
        match self {
            RowError::WrongDims { expected, got } => "expected dim ".to_owned().concat(
                decimal(*expected as u64).as_str(),
            ).concat(", got ").concat(decimal(*got as u64).as_str()),
            RowError::TooFewRows { expected, got } => "expected ".to_owned().concat(
                decimal(*expected as u64).as_str(),
            ).concat(" rows from ").concat(path).concat(", got ").concat(
                decimal(*got as u64).as_str(),
            ),
        }
    }
}

/// Rows that are read from a file: an id and a vector each.
pub struct VectorRows<T> {
    pub ids: Vec<u64>,
    pub vectors: Vec<Vec<T>>,
}

impl<T> VectorRows<T> {
    /// As many vectors as ids, each of `dims` coordinates.
    pub open spec fn wf(self, dims: usize) -> bool {
        &&& self.ids@.len() == self.vectors@.len()
        &&& forall|i: int|
            0 <= i < self.vectors@.len() ==> (#[trigger] self.vectors@[i])@.len() == dims
    }

    pub fn new() -> (r: VectorRows<T>)
        ensures
            r.ids@.len() == 0,
            r.vectors@.len() == 0,
            forall|dims: usize| #[trigger] r.wf(dims),
    {
        VectorRows { ids: Vec::new(), vectors: Vec::new() }
    }

    /// Whether no further row is wanted.
    pub fn is_full(&self, limit: Option<usize>) -> (r: bool)
        ensures
            r == (limit matches Some(n) && self.ids@.len() >= n),
    {
        match limit {
            Some(n) => self.ids.len() >= n,
            None => false,
        }
    }

    /// Adds a row, if its vector has the right length.
    pub fn push(&mut self, id: u64, vector: Vec<T>, dims: usize) -> (r: Result<(), RowError>)
        requires
            old(self).wf(dims),
        ensures
            final(self).wf(dims),
            vector@.len() == dims ==> r is Ok && final(self).ids@ == old(self).ids@.push(id)
                && final(self).vectors@ == old(self).vectors@.push(vector),
            vector@.len() != dims ==> r == Err::<(), RowError>(
                RowError::WrongDims { expected: dims, got: vector@.len() as usize },
            ) && *final(self) == *old(self),
    {
        if vector.len() != dims {
            return Err(RowError::WrongDims { expected: dims, got: vector.len() });
        }
        self.ids.push(id);
        self.vectors.push(vector);
        Ok(())
    }

    /// Checks, at the end of the file, that it had the rows that were asked
    /// for.
    pub fn check_count(&self, limit: Option<usize>) -> (r: Result<(), RowError>)
        ensures
            limit is None ==> r is Ok,
            limit matches Some(n) ==> if self.ids@.len() == n {
                r is Ok
            } else {
                r == Err::<(), RowError>(
                    RowError::TooFewRows { expected: n, got: self.ids@.len() as usize },
                )
            },
    {
        match limit {
            None => Ok(()),
            Some(n) => {
                if self.ids.len() == n {
                    Ok(())
                } else {
                    Err(RowError::TooFewRows { expected: n, got: self.ids.len() })
                }
            },
        }
    }
}

} // verus!
