//! What the programs around the library are configured with.
//!
//! A configuration is read from a file; the arguments of the command line
//! then replace the entries that they name.
use vstd::prelude::*;
use crate::datastructures::{Algorithm, Portfolio, Timeout};
use crate::fixed::SCALE;
use crate::text::{replace_all, replaced};

verus! {

/// The arguments of the program that simulates portfolios.
#[derive(Debug, Clone, PartialEq, Eq)]
pub struct ConfigArgs {
    /// Path to the json config
    pub config: String,
}

/// The configuration of the program that selects a portfolio.
#[derive(Debug, Clone, PartialEq, Eq)]
pub struct Config {
    /// CSV files containing the input data
    pub files: Vec<String>,
    /// Path to a CSV file containing a list of graphs
    pub graphs: String,
    /// The numbers of blocks to filter instances by
    pub ks: Vec<i64>,
    /// The feasibility thresholds to filter instances by (fixed-point)
    pub feasibility_thresholds: Vec<u64>,
    /// Number of cores available to the portfolio
    pub num_cores: u32,
    /// How much slower than the best runs an algorithm may be (fixed-point)
    pub slowdown_ratio: u64,
    /// How often a portfolio run is sampled for each instance
    pub num_seeds: u32,
    /// Path to the output directory
    pub out_dir: String,
    /// Timeout for the solver
    pub timeout: Timeout,
}

/// The configuration of the program that simulates portfolios.
#[derive(Debug, Clone, PartialEq, Eq)]
pub struct PortfolioExecutorConfig {
    /// CSV files containing the input data
    pub files: Vec<String>,
    /// The portfolios to simulate
    pub portfolios: Vec<Portfolio>,
    /// How often a portfolio run is sampled for each instance
    pub num_seeds: u32,
    /// Number of cores available to the portfolios
    pub num_cores: u32,
    /// Path of the file to write
    pub out: String,
}

/// The instances to keep: the graphs listed in a file, partitioned into each
/// of the numbers of blocks under each of the feasibility thresholds.
#[derive(Debug, Clone, PartialEq, Eq)]
pub struct InstanceFilter {
    /// Path to a CSV file containing a list of graphs
    pub instance_path: String,
    /// The numbers of blocks
    pub ks: Vec<i64>,
    /// The feasibility thresholds (fixed-point)
    pub feasibility_thresholds: Vec<u64>,
}

/// The arguments of the program that selects a portfolio.
#[derive(Debug, Clone, PartialEq, Eq)]
pub struct Args {
    /// Path to the json config
    pub config: String,
    /// List of CSV files containing the input data
    pub files: Option<Vec<String>>,
    /// Filter instances by number of blocks (k)
    pub ks: Option<Vec<i64>>,
    /// Filter instances by feasibility threshold (epsilon, fixed-point)
    pub feasibility_thresholds: Option<Vec<u64>>,
    /// Path to a CSV file containing a list of graphs
    pub graphs: Option<String>,
    /// Filter algorithms by their slowdown against the best runs
    /// (fixed-point)
    pub slowdown_ratio: Option<u64>,
    /// How often a portfolio run is sampled for each instance
    pub num_seeds: Option<u32>,
    /// Path to the output directory
    pub out_dir: Option<String>,
    /// Timeout for the solver
    pub timeout: Option<Timeout>,
    /// Number of cores available to the portfolio
    pub num_cores: Option<u32>,
    /// Write initial portfolio to output
    pub initial_portfolio: bool,
    /// Write random portfolio to output
    pub random_portfolio: bool,
}

/// The slowdown ratio that stands for "do not filter": the largest 32-bit
/// number.
pub const UNBOUNDED_SLOWDOWN: u64 = 4_294_967_295_000_000;

/// The entry that holds: the one given on the command line, if any, and
/// the one of the file otherwise.
pub open spec fn chosen<T>(given: Option<T>, configured: T) -> T {
    match given {
        Some(value) => value,
        None => configured,
    }
}

/// The slowdown ratio that holds: a ratio of zero stands for no filter.
pub open spec fn effective_slowdown(ratio: u64) -> u64 {
    if ratio == 0 {
        UNBOUNDED_SLOWDOWN
    } else {
        ratio
    }
}

impl Config {
    /// The configuration that holds when the program is called with `args`
    /// and its configuration file holds `configured`: every argument that is
    /// given replaces the entry of the file, and a slowdown ratio of zero
    /// switches the filter off.
    pub fn from_cli(configured: Config, args: Args) -> (config: Config)
        ensures
            config.files == chosen(args.files, configured.files),
            config.graphs == chosen(args.graphs, configured.graphs),
            config.ks == chosen(args.ks, configured.ks),
            config.feasibility_thresholds == chosen(
                args.feasibility_thresholds,
                configured.feasibility_thresholds,
            ),
            config.num_cores == chosen(args.num_cores, configured.num_cores),
            config.slowdown_ratio == effective_slowdown(
                chosen(args.slowdown_ratio, configured.slowdown_ratio),
            ),
            config.num_seeds == chosen(args.num_seeds, configured.num_seeds),
            config.out_dir == chosen(args.out_dir, configured.out_dir),
            config.timeout == chosen(args.timeout, configured.timeout),
    {
        let mut config = configured;
        if let Some(slowdown_ratio) = args.slowdown_ratio {
            config.slowdown_ratio = slowdown_ratio;
        }
        if config.slowdown_ratio == 0 {
            config.slowdown_ratio = UNBOUNDED_SLOWDOWN;
        }
        if let Some(out_dir) = args.out_dir {
            config.out_dir = out_dir;
        }
        if let Some(timeout) = args.timeout {
            config.timeout = timeout;
        }
        if let Some(num_cores) = args.num_cores {
            config.num_cores = num_cores;
        }
        if let Some(num_seeds) = args.num_seeds {
            config.num_seeds = num_seeds;
        }
        if let Some(graphs) = args.graphs {
            config.graphs = graphs;
        }
        if let Some(files) = args.files {
            config.files = files;
        }
        if let Some(ks) = args.ks {
            config.ks = ks;
        }
        if let Some(feasibility_thresholds) = args.feasibility_thresholds {
            config.feasibility_thresholds = feasibility_thresholds;
        }
        config
    }
}

/// The numbers of blocks that hold where a configuration names none.
pub fn default_ks() -> (ks: Vec<i64>)
    ensures
        ks@ == seq![2i64, 4, 8, 16, 32, 64, 128],
{
    vec![2, 4, 8, 16, 32, 64, 128]
}

/// The feasibility thresholds that hold where a configuration names none:
/// three hundredths.
pub fn default_feasibility_thresholds() -> (thresholds: Vec<u64>)
    ensures
        thresholds@ == seq![30_000u64],
{
    vec![30_000]
}

/// A configuration for two cores without files, slowdown filter or output
/// directory.
pub fn default_config() -> (config: Config)
    ensures
        config.files@.len() == 0,
        config.graphs@.len() == 0,
        config.ks@ == seq![2i64, 4],
        config.feasibility_thresholds@ == seq![30_000u64],
        config.num_cores == 2,
        config.slowdown_ratio == u64::MAX,
        config.num_seeds == 1,
        config.out_dir@.len() == 0,
        config.timeout.0 == 900 * SCALE,
{
    Config {
        files: Vec::new(),
        graphs: String::new(),
        ks: vec![2, 4],
        feasibility_thresholds: vec![30_000],
        num_cores: 2,
        slowdown_ratio: u64::MAX,
        num_seeds: 1,
        out_dir: String::new(),
        timeout: Timeout::default(),
    }
}

/// Whether two lists of assignments give the same algorithms the same
/// replicas, in the same order.
pub open spec fn same_assignments(a: Seq<(Algorithm, u64)>, b: Seq<(Algorithm, u64)>) -> bool {
    &&& a.len() == b.len()
    &&& forall|i: int| 0 <= i < a.len() ==> (#[trigger] a[i]).0@ == b[i].0@ && a[i].1 == b[i].1
}

/// Decides whether two lists of assignments are the same.
pub fn assignments_equal(a: &Vec<(Algorithm, u64)>, b: &Vec<(Algorithm, u64)>) -> (r: bool)
    ensures
        r == same_assignments(a@, b@),
{
    if a.len() != b.len() {
        return false;
    }
    let mut i: usize = 0;
    while i < a.len()
        invariant
            i <= a@.len(),
            a@.len() == b@.len(),
            forall|j: int| 0 <= j < i ==> (#[trigger] a@[j]).0@ == b@[j].0@ && a@[j].1 == b@[j].1,
        decreases a@.len() - i,
    {
        if !a[i].0.same_as(&b[i].0) || a[i].1 != b[i].1 {
            return false;
        }
        i += 1;
    }
    true
}

/// Whether the initial portfolio is executed: it is asked for, there is one,
/// and it differs from the final portfolio.
pub open spec fn executes_initial(
    final_portfolio: Portfolio,
    initial_portfolio: Option<Portfolio>,
    asked: bool,
) -> bool {
    asked && initial_portfolio is Some && !same_assignments(
        initial_portfolio->Some_0.resource_assignments@,
        final_portfolio.resource_assignments@,
    )
}

/// The portfolios to execute: the final portfolio, then the random portfolio
/// if it is asked for, then the initial portfolio if it is asked for and
/// there is one that differs from the final portfolio.
pub fn portfolios_to_execute(
    final_portfolio: Portfolio,
    initial_portfolio: Option<Portfolio>,
    random_portfolio: Portfolio,
    args: &Args,
) -> (portfolios: Vec<Portfolio>)
    ensures
        portfolios@ == seq![final_portfolio] + (if args.random_portfolio {
            seq![random_portfolio]
        } else {
            Seq::empty()
        }) + (if executes_initial(final_portfolio, initial_portfolio, args.initial_portfolio) {
            seq![initial_portfolio->Some_0]
        } else {
            Seq::empty()
        }),
{
    let initial = match initial_portfolio {
        Some(portfolio) => {
            if args.initial_portfolio && !assignments_equal(
                &portfolio.resource_assignments,
                &final_portfolio.resource_assignments,
            ) {
                Some(portfolio)
            } else {
                None
            }
        },
        None => None,
    };
    let mut portfolios: Vec<Portfolio> = Vec::new();
    portfolios.push(final_portfolio);
    if args.random_portfolio {
        portfolios.push(random_portfolio);
    }
    match initial {
        Some(portfolio) => {
            portfolios.push(portfolio);
        },
        None => {},
    }
    proof {
        let first = seq![final_portfolio];
        let second = if args.random_portfolio {
            seq![random_portfolio]
        } else {
            Seq::<Portfolio>::empty()
        };
        let third = if executes_initial(final_portfolio, initial_portfolio, args.initial_portfolio) {
            seq![initial_portfolio->Some_0]
        } else {
            Seq::<Portfolio>::empty()
        };
        assert(portfolios@ =~= first + second + third);
    }
    portfolios
}

/// The name of the file that a portfolio is written to, without extension:
/// the name of the portfolio without the mark of an optimal solution.
pub fn file_stem(portfolio: &Portfolio) -> (stem: String)
    ensures
        stem@ == replaced(portfolio.name@, "_opt"@, ""@),
{
    proof {
        reveal_strlit("_opt");
    }
    replace_all(portfolio.name.as_str(), "_opt", "")
}

} // verus!
