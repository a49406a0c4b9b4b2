use crate::dependency_analyzer::direct_includers;
use crate::dependency_analyzer::dom_of;
use crate::dependency_analyzer::has_entry_named;
use crate::dependency_analyzer::impact_of;
use crate::dependency_analyzer::lemma_entry_count;
use crate::dependency_analyzer::lemma_model_impact;
use crate::dependency_analyzer::scanned_canon_of;
use crate::dependency_analyzer::distinct_ids;
use crate::dependency_analyzer::AnalysisError;
use crate::dependency_analyzer::DependencyAnalyzer;
use crate::dependency_analyzer::DependencyEntry;
use crate::file::File;
use vstd::prelude::*;

verus! {

/// Whether some output pair of `v` names `n`.
pub open spec fn output_names_contain(v: Seq<(String, usize)>, n: Seq<char>) -> bool {
    exists|k: int| 0 <= k < v.len() && ((#[trigger] v[k]).0)@ == n
}

/// What a top-N ranking output promises: at most `output_size` pairs, each a
/// distinct candidate name with its exact count, counts descending, and no
/// candidate left out unless the list was cut at `output_size`.
pub open spec fn topn_output_ok(
    candidates: Set<Seq<char>>,
    counts: spec_fn(Seq<char>) -> int,
    output_size: int,
    v: Seq<(String, usize)>,
) -> bool {
    &&& v.len() <= output_size
    &&& forall|k: int| 0 <= k < v.len() ==> candidates.contains(((#[trigger] v[k]).0)@)
    &&& forall|k: int| 0 <= k < v.len() ==> ((#[trigger] v[k]).1 as int) == counts(v[k].0@)
    &&& forall|k1: int, k2: int| 0 <= k1 < k2 < v.len() ==> v[k1].0@ != v[k2].0@
    &&& forall|a: int, b: int| 0 <= a <= b < v.len() ==> v[a].1 >= v[b].1
    &&& (v.len() < output_size ==> forall|n: Seq<char>| #[trigger]
        candidates.contains(n) ==> output_names_contain(v, n))
}

/// The first `num` elements of a slice, or the whole slice when it is not
/// longer than `num`.
pub fn get_slice_up_to<T>(slice: &[T], num: usize) -> (r: &[T])
    ensures
        r@ == if slice@.len() <= num {
            slice@
        } else {
            slice@.subrange(0, num as int)
        },
{
    if slice.len() <= num {
        slice
    } else {
        vstd::slice::slice_subrange(slice, 0, num)
    }
}

proof fn lemma_output_from_entries(
    entries: Seq<DependencyEntry>,
    sliced: Seq<DependencyEntry>,
    v: Seq<(String, usize)>,
    candidates: Set<Seq<char>>,
    counts: spec_fn(Seq<char>) -> int,
    output_size: int,
)
    requires
        output_size >= 0,
        sliced == if entries.len() <= output_size {
            entries
        } else {
            entries.subrange(0, output_size)
        },
        v.len() == sliced.len(),
        forall|k: int|
            0 <= k < v.len() ==> ((#[trigger] v[k]).0)@ == sliced[k].name() && (v[k].1 as int)
                == sliced[k].count(),
        forall|k: int|
            0 <= k < entries.len() ==> candidates.contains((#[trigger] entries[k]).name()),
        forall|k: int|
            0 <= k < entries.len() ==> (#[trigger] entries[k]).count() == counts(
                entries[k].name(),
            ),
        forall|k1: int, k2: int|
            0 <= k1 < k2 < entries.len() ==> entries[k1].name() != entries[k2].name(),
        forall|a: int, b: int|
            0 <= a <= b < entries.len() ==> entries[a].count() >= entries[b].count(),
        forall|n: Seq<char>| #[trigger] candidates.contains(n) ==> has_entry_named(entries, n),
    ensures
        topn_output_ok(candidates, counts, output_size, v),
{
    assert(forall|k: int| 0 <= k < sliced.len() ==> (#[trigger] sliced[k]) == entries[k]);
    if v.len() < output_size {
        assert(sliced == entries);
        assert forall|n: Seq<char>| #[trigger] candidates.contains(n) implies output_names_contain(
            v,
            n,
        ) by {
            let k = choose|k: int| 0 <= k < entries.len() && (#[trigger] entries[k]).name() == n;
            assert((v[k].0)@ == n);
        }
    }
}

/// The reporting layer's data shaping: ranking rows reduced to name and
/// count pairs.
pub struct TopNUseCase {}

impl TopNUseCase {
    /// Reduces ranking rows to (name, count) pairs, in order.
    pub fn make_output_data_from_slice(dependency_entries: &[DependencyEntry]) -> (r: Vec<
        (String, usize),
    >)
        ensures
            r@.len() == dependency_entries@.len(),
            forall|k: int|
                0 <= k < r@.len() ==> ((#[trigger] r@[k]).0)@ == dependency_entries@[k].name()
                    && (r@[k].1 as int) == dependency_entries@[k].count(),
    {
        let n = dependency_entries.len();
        let mut out: Vec<(String, usize)> = Vec::new();
        let mut i: usize = 0;
        while i < n
            invariant
                n == dependency_entries@.len(),
                i <= n,
                out@.len() == i,
                forall|k: int|
                    0 <= k < i ==> ((#[trigger] out@[k]).0)@ == dependency_entries@[k].name() && (
                    out@[k].1 as int) == dependency_entries@[k].count(),
            decreases n - i,
        {
            let e = vstd::slice::slice_index_get(dependency_entries, i);
            let name = e.get_file_name().to_owned();
            let count = e.get_including_file_paths().len();
            out.push((name, count));
            i = i + 1;
        }
        out
    }

    /// Top-N most directly included nodes of the scanned units: every graph
    /// node is a candidate. Fails exactly when there is no unit at all.
    pub fn do_sorted_topn_inclusions(config: &Config, files: &Vec<File>) -> (r: Result<
        Vec<(String, usize)>,
        AnalysisError,
    >)
        requires
            distinct_ids(files@),
        ensures
            r is Ok <==> files@.len() > 0,
            files@.len() == 0 ==> r == Err::<Vec<(String, usize)>, AnalysisError>(
                AnalysisError::EmptyGraph,
            ),
            r matches Ok(v) ==> topn_output_ok(
                dom_of(files@),
                (|n: Seq<char>| direct_includers(files@, n).len() as int),
                config.output_size_spec() as int,
                v@,
            ),
    {
        let analyzer = match DependencyAnalyzer::make(files, config.get_debug()) {
            Ok(a) => a,
            Err(e) => {
                proof {
                    assert(false);
                }
                return Err(e);
            },
        };
        let sorted_inclusions = match analyzer.get_sorted_inclusion() {
            Ok(v) => v,
            Err(e) => {
                return Err(e);
            },
        };
        let sliced = get_slice_up_to(sorted_inclusions.as_slice(), config.get_output_size());
        let out = Self::make_output_data_from_slice(sliced);
        proof {
            let counts = (|n: Seq<char>| direct_includers(files@, n).len() as int);
            assert forall|k: int|
                0 <= k < sorted_inclusions@.len() implies (#[trigger] sorted_inclusions@[k]).count()
                == counts(sorted_inclusions@[k].name()) by {
                lemma_entry_count(sorted_inclusions@[k]);
                assert(sorted_inclusions@[k].path_set() == analyzer.includers_of(
                    sorted_inclusions@[k].name(),
                ));
                assert(analyzer.includers_of(sorted_inclusions@[k].name()) == direct_includers(
                    files@,
                    sorted_inclusions@[k].name(),
                ));
            }
            lemma_output_from_entries(
                sorted_inclusions@,
                sliced@,
                out@,
                dom_of(files@),
                counts,
                config.output_size_spec() as int,
            );
        }
        Ok(out)
    }

    /// Top-N most directly included nodes, external nodes dropped: only
    /// names of scanned units are candidates.
    pub fn do_sorted_topn_inclusions_no_external(config: &Config, files: &Vec<File>) -> (r: Result<
        Vec<(String, usize)>,
        AnalysisError,
    >)
        requires
            distinct_ids(files@),
        ensures
            r is Ok <==> files@.len() > 0,
            files@.len() == 0 ==> r == Err::<Vec<(String, usize)>, AnalysisError>(
                AnalysisError::EmptyGraph,
            ),
            r matches Ok(v) ==> topn_output_ok(
                dom_of(files@).intersect(scanned_canon_of(files@)),
                (|n: Seq<char>| direct_includers(files@, n).len() as int),
                config.output_size_spec() as int,
                v@,
            ),
    {
        let analyzer = match DependencyAnalyzer::make(files, config.get_debug()) {
            Ok(a) => a,
            Err(e) => {
                proof {
                    assert(false);
                }
                return Err(e);
            },
        };
        let sorted_inclusions = match analyzer.get_sorted_inclusion_no_external() {
            Ok(v) => v,
            Err(e) => {
                return Err(e);
            },
        };
        let sliced = get_slice_up_to(sorted_inclusions.as_slice(), config.get_output_size());
        let out = Self::make_output_data_from_slice(sliced);
        proof {
            let counts = (|n: Seq<char>| direct_includers(files@, n).len() as int);
            let candidates = dom_of(files@).intersect(scanned_canon_of(files@));
            assert forall|k: int|
                0 <= k < sorted_inclusions@.len() implies (#[trigger] sorted_inclusions@[k]).count()
                == counts(sorted_inclusions@[k].name()) && candidates.contains(
                sorted_inclusions@[k].name(),
            ) by {
                lemma_entry_count(sorted_inclusions@[k]);
                assert(sorted_inclusions@[k].path_set() == analyzer.includers_of(
                    sorted_inclusions@[k].name(),
                ));
            }
            assert forall|n: Seq<char>| #[trigger] candidates.contains(n) implies has_entry_named(
                sorted_inclusions@,
                n,
            ) by {
                assert(analyzer.graph_dom().contains(n) && analyzer.scanned_canon().contains(n));
            }
            lemma_output_from_entries(
                sorted_inclusions@,
                sliced@,
                out@,
                candidates,
                counts,
                config.output_size_spec() as int,
            );
        }
        Ok(out)
    }

    /// Top-N most impacting nodes: for every graph node, how many scanned
    /// units transitively include it.
    pub fn do_sorted_topn_impact(config: &Config, files: &Vec<File>) -> (r: Result<
        Vec<(String, usize)>,
        AnalysisError,
    >)
        requires
            distinct_ids(files@),
        ensures
            r is Ok <==> files@.len() > 0,
            files@.len() == 0 ==> r == Err::<Vec<(String, usize)>, AnalysisError>(
                AnalysisError::EmptyGraph,
            ),
            r matches Ok(v) ==> topn_output_ok(
                dom_of(files@),
                (|n: Seq<char>| impact_of(files@, n).len() as int),
                config.output_size_spec() as int,
                v@,
            ),
    {
        let analyzer = match DependencyAnalyzer::make(files, config.get_debug()) {
            Ok(a) => a,
            Err(e) => {
                proof {
                    assert(false);
                }
                return Err(e);
            },
        };
        let sorted_impacts = match analyzer.get_sorted_impact() {
            Ok(v) => v,
            Err(e) => {
                return Err(e);
            },
        };
        let sliced = get_slice_up_to(sorted_impacts.as_slice(), config.get_output_size());
        let out = Self::make_output_data_from_slice(sliced);
        proof {
            lemma_model_impact(analyzer, files@);
            let counts = (|n: Seq<char>| impact_of(files@, n).len() as int);
            assert forall|k: int|
                0 <= k < sorted_impacts@.len() implies (#[trigger] sorted_impacts@[k]).count()
                == counts(sorted_impacts@[k].name()) by {
                lemma_entry_count(sorted_impacts@[k]);
                assert(sorted_impacts@[k].path_set() == analyzer.impact_set(
                    sorted_impacts@[k].name(),
                ));
                assert(analyzer.impact_set(sorted_impacts@[k].name()) == impact_of(
                    files@,
                    sorted_impacts@[k].name(),
                ));
            }
            lemma_output_from_entries(
                sorted_impacts@,
                sliced@,
                out@,
                dom_of(files@),
                counts,
                config.output_size_spec() as int,
            );
        }
        Ok(out)
    }

    /// Top-N most impacting nodes, external nodes dropped.
    pub fn do_sorted_topn_impact_no_external(config: &Config, files: &Vec<File>) -> (r: Result<
        Vec<(String, usize)>,
        AnalysisError,
    >)
        requires
            distinct_ids(files@),
        ensures
            r is Ok <==> files@.len() > 0,
            files@.len() == 0 ==> r == Err::<Vec<(String, usize)>, AnalysisError>(
                AnalysisError::EmptyGraph,
            ),
            r matches Ok(v) ==> topn_output_ok(
                dom_of(files@).intersect(scanned_canon_of(files@)),
                (|n: Seq<char>| impact_of(files@, n).len() as int),
                config.output_size_spec() as int,
                v@,
            ),
    {
        let analyzer = match DependencyAnalyzer::make(files, config.get_debug()) {
            Ok(a) => a,
            Err(e) => {
                proof {
                    assert(false);
                }
                return Err(e);
            },
        };
        let sorted_impacts = match analyzer.get_sorted_impact_no_external() {
            Ok(v) => v,
            Err(e) => {
                return Err(e);
            },
        };
        let sliced = get_slice_up_to(sorted_impacts.as_slice(), config.get_output_size());
        let out = Self::make_output_data_from_slice(sliced);
        proof {
            lemma_model_impact(analyzer, files@);
            let counts = (|n: Seq<char>| impact_of(files@, n).len() as int);
            let candidates = dom_of(files@).intersect(scanned_canon_of(files@));
            assert forall|k: int|
                0 <= k < sorted_impacts@.len() implies (#[trigger] sorted_impacts@[k]).count()
                == counts(sorted_impacts@[k].name()) && candidates.contains(
                sorted_impacts@[k].name(),
            ) by {
                lemma_entry_count(sorted_impacts@[k]);
                assert(sorted_impacts@[k].path_set() == analyzer.impact_set(
                    sorted_impacts@[k].name(),
                ));
            }
            assert forall|n: Seq<char>| #[trigger] candidates.contains(n) implies has_entry_named(
                sorted_impacts@,
                n,
            ) by {
                assert(analyzer.graph_dom().contains(n) && analyzer.scanned_canon().contains(n));
            }
            lemma_output_from_entries(
                sorted_impacts@,
                sliced@,
                out@,
                candidates,
                counts,
                config.output_size_spec() as int,
            );
        }
        Ok(out)
    }
}

/// One use-case invocation's parameters: where to scan, how many rows to
/// report, and whether to emit the debug traversal trees.
pub struct Config {
    path: String,
    output_size: usize,
    debug: bool,
}

impl Config {
    pub closed spec fn path_spec(self) -> Seq<char> {
        self.path@
    }

    pub closed spec fn output_size_spec(self) -> usize {
        self.output_size
    }

    pub closed spec fn debug_spec(self) -> bool {
        self.debug
    }

    pub fn make(path: &str, output_size: usize, debug: bool) -> (r: Config)
        ensures
            r.path_spec() == path@,
            r.output_size_spec() == output_size,
            r.debug_spec() == debug,
    {
        Config { path: path.to_owned(), output_size, debug }
    }

    pub fn get_path(&self) -> (r: &str)
        ensures
            r@ == self.path_spec(),
    {
        self.path.as_str()
    }

    pub fn get_output_size(&self) -> (r: usize)
        ensures
            r == self.output_size_spec(),
    {
        self.output_size
    }

    pub fn get_debug(&self) -> (r: bool)
        ensures
            r == self.debug_spec(),
    {
        self.debug
    }
}

} // verus!
