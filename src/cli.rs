//! The plain values that a command line hands to the errand store.
use vstd::prelude::*;

verus! {

/// How many priority levels there are.
pub const PRIORITY_COUNT: usize = 6;

/// Order in which listed errands come out.
#[derive(Clone, Copy, Debug, PartialEq, Eq, Structural)]
pub enum Order {
    /// Descending in priority: the rank order, most urgent first.
    Descending,
    /// Ascending in priority: the reverse of the rank order.
    Ascending,
    /// A random permutation.
    Random,
}

/// The priority levels, from most to least urgent.
#[derive(Clone, Copy, Debug, PartialEq, Eq, Structural, PartialOrd, Ord, Hash)]
pub enum Priority {
    Emergency,
    Urgent,
    High,
    Medium,
    Routine,
    Deferred,
}

/// Position of a priority in the rank order, 0 being the most urgent.
pub open spec fn rank(p: Priority) -> int {
    match p {
        Priority::Emergency => 0,
        Priority::Urgent => 1,
        Priority::High => 2,
        Priority::Medium => 3,
        Priority::Routine => 4,
        Priority::Deferred => 5,
    }
}

/// The priority at a given rank (ranks past the last one map to the last).
pub open spec fn priority_at(r: int) -> Priority {
    if r <= 0 {
        Priority::Emergency
    } else if r == 1 {
        Priority::Urgent
    } else if r == 2 {
        Priority::High
    } else if r == 3 {
        Priority::Medium
    } else if r == 4 {
        Priority::Routine
    } else {
        Priority::Deferred
    }
}

/// Ranks and priorities correspond one to one.
pub proof fn lemma_rank_bijection()
    ensures
        forall|p: Priority| 0 <= #[trigger] rank(p) < PRIORITY_COUNT && priority_at(rank(p)) == p,
        forall|r: int| 0 <= r < PRIORITY_COUNT ==> rank(#[trigger] priority_at(r)) == r,
{
}

impl Priority {
    /// This priority's rank.
    pub fn rank(&self) -> (r: usize)
        ensures
            r == rank(*self),
    {
        match self {
            Priority::Emergency => 0,
            Priority::Urgent => 1,
            Priority::High => 2,
            Priority::Medium => 3,
            Priority::Routine => 4,
            Priority::Deferred => 5,
        }
    }

    /// The priority of a given rank.
    pub fn from_rank(r: usize) -> (p: Priority)
        requires
            r < PRIORITY_COUNT,
        ensures
            p == priority_at(r as int),
            rank(p) == r,
    {
        if r == 0 {
            Priority::Emergency
        } else if r == 1 {
            Priority::Urgent
        } else if r == 2 {
            Priority::High
        } else if r == 3 {
            Priority::Medium
        } else if r == 4 {
            Priority::Routine
        } else {
            Priority::Deferred
        }
    }

    /// All priorities in rank order.
    pub fn all() -> (ps: Vec<Priority>)
        ensures
            ps@.len() == PRIORITY_COUNT,
            forall|i: int| 0 <= i < PRIORITY_COUNT ==> ps@[i] == priority_at(i),
    {
        vec![
            Priority::Emergency,
            Priority::Urgent,
            Priority::High,
            Priority::Medium,
            Priority::Routine,
            Priority::Deferred,
        ]
    }
}

/// Where an errand list is kept.
#[derive(Clone, Copy, Debug, PartialEq, Eq, Structural)]
pub enum Location {
    /// A file in the working directory.
    Local,
    /// A file under the user's configuration directory.
    User,
    /// A file under the system-wide configuration directory.
    Global,
}

/// The locations to try, in order, for an optional explicit location.
pub open spec fn probe_order(location: Option<Location>) -> Seq<Location> {
    match location {
        Some(l) => seq![l],
        None => seq![Location::Local, Location::User, Location::Global],
    }
}

/// The candidate locations of an errand list: the given one alone, or else
/// local, user and global, in that order.
pub fn candidates(location: &Option<Location>) -> (r: Vec<Location>)
    ensures
        r@ == probe_order(*location),
{
    let r = match location {
        Some(l) => vec![*l],
        None => vec![Location::Local, Location::User, Location::Global],
    };
    assert(r@ =~= probe_order(*location));
    r
}

/// The first candidate that exists, given which of `candidates(location)`
/// exist; `None` where none does.
pub fn resolve(location: &Option<Location>, exists: &Vec<bool>) -> (r: Option<Location>)
    requires
        exists@.len() == probe_order(*location).len(),
    ensures
        r is None <==> forall|i: int| 0 <= i < exists@.len() ==> !exists@[i],
        r is Some ==> exists|i: int|
            0 <= i < exists@.len() && exists@[i] && r == Some(probe_order(*location)[i])
                && forall|j: int| 0 <= j < i ==> !exists@[j],
{
    let cands = candidates(location);
    let mut i: usize = 0;
    while i < exists.len()
        invariant
            cands@ == probe_order(*location),
            exists@.len() == cands@.len(),
            i <= exists@.len(),
            forall|j: int| 0 <= j < i ==> !exists@[j],
        decreases exists@.len() - i,
    {
        if exists[i] {
            return Some(cands[i]);
        }
        i = i + 1;
    }
    None
}

/// A parsed command.
#[allow(inconsistent_fields)]
pub enum Commands {
    /// Initializes an errand list.
    Init { location: Location },
    /// Removes one bucket, or all.
    Clean { location: Option<Location>, priority: Option<Priority> },
    /// Adds an errand.
    Add { location: Option<Location>, priority: Option<Priority>, errand: String },
    /// Lists errands.
    List {
        location: Option<Location>,
        ignore: Option<String>,
        order: Option<Order>,
        count: Option<usize>,
        priority: Option<Priority>,
    },
    /// Removes errands by name.
    Rm { location: Option<Location>, priority: Option<Priority>, errands: Vec<String> },
}

/// The command line: a verbosity level and a command.
pub struct Args {
    pub verbose: usize,
    pub command: Commands,
}

} // verus!
