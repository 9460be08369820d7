//! Resource limits for agent execution, and the pool they are carved from.
//!
//! A [`Constraints`] value plays two roles.  Built once from a
//! [`ConstraintsBuilder`], it is the global pool of CPUs and RAM that an
//! evaluation may use, together with the per-agent limits (RAM, CPUs per
//! agent, time budget and per-action timeout).  While the tournament runs,
//! [`Constraints::take`] carves disjoint per-match slices off the pool and
//! [`Constraints::add`] returns them, so that no two concurrent matches
//! ever share a CPU and the pool is restored when a match ends.
//!
//! CPU indices are `u8`, as in a `taskset`-style CPU list such as
//! `"0-3,6"`; time limits are in microseconds, with `u64::MAX` standing
//! for "unlimited".

use crate::parse::all_digits;
use crate::parse::digits_value;
use crate::parse::parse_u64_digits;
use crate::parse::split_on;
use crate::parse::split_str;
use vstd::prelude::*;

verus! {

/// One megabyte, in bytes, as the builder's RAM inputs are megabytes.
pub open spec fn mb(m: int) -> int {
    m * 1_000_000
}

/// A digit string that denotes a CPU index (it must fit in a `u8`).
pub open spec fn is_u8_digits(t: Seq<char>) -> bool {
    t.len() > 0 && all_digits(t) && digits_value(t) <= 255
}

/// One comma-separated item of a CPU list: either a single index or a
/// range `a-b` (either endpoint may be the larger one).
pub open spec fn valid_cpu_item(t: Seq<char>) -> bool {
    let parts = split_on(t, '-');
    if parts.len() == 1 {
        is_u8_digits(parts[0])
    } else if parts.len() == 2 {
        is_u8_digits(parts[0]) && is_u8_digits(parts[1])
    } else {
        false
    }
}

/// The CPUs that one item denotes: a singleton, or every index between
/// the two endpoints inclusively.
pub open spec fn cpu_item_cpus(t: Seq<char>) -> Set<u8> {
    let parts = split_on(t, '-');
    if parts.len() == 1 {
        Set::new(|x: u8| x as int == digits_value(parts[0]))
    } else {
        let a = digits_value(parts[0]);
        let b = digits_value(parts[1]);
        Set::new(|x: u8| vstd::math::min(a, b) <= x as int <= vstd::math::max(a, b))
    }
}

/// A CPU list string is valid when it is nonempty and every
/// comma-separated item is valid.
pub open spec fn valid_cpu_list(s: Seq<char>) -> bool {
    s.len() > 0 && forall|i: int|
        0 <= i < split_on(s, ',').len() ==> valid_cpu_item(#[trigger] split_on(s, ',')[i])
}

/// The CPUs denoted by a sequence of items: the union of the items'.
pub open spec fn cpu_items_cpus(items: Seq<Seq<char>>) -> Set<u8>
    decreases items.len(),
{
    if items.len() == 0 {
        Set::<u8>::empty()
    } else {
        cpu_items_cpus(items.drop_last()).union(cpu_item_cpus(items.last()))
    }
}

/// The CPUs denoted by a CPU list string.
pub open spec fn cpu_list_cpus(s: Seq<char>) -> Set<u8> {
    cpu_items_cpus(split_on(s, ','))
}

proof fn lemma_cpu_items_cpus_take(items: Seq<Seq<char>>, i: int)
    requires
        0 <= i < items.len(),
    ensures
        cpu_items_cpus(items.take(i + 1)) == cpu_items_cpus(items.take(i)).union(
            cpu_item_cpus(items[i]),
        ),
{
    assert(items.take(i + 1).drop_last() =~= items.take(i));
    assert(items.take(i + 1).last() == items[i]);
}

/// Adds a CPU to a duplicate-free list unless it is already there.
fn insert_cpu(cpus: &mut Vec<u8>, cpu: u8)
    requires
        old(cpus)@.no_duplicates(),
    ensures
        final(cpus)@.no_duplicates(),
        final(cpus)@.to_set() == old(cpus)@.to_set().insert(cpu),
{
    let mut i: usize = 0;
    while i < cpus.len()
        invariant
            i <= cpus@.len(),
            cpus@ == old(cpus)@,
            old(cpus)@.no_duplicates(),
            forall|k: int| 0 <= k < i ==> cpus@[k] != cpu,
        decreases cpus@.len() - i,
    {
        if cpus[i] == cpu {
            proof {
                assert(cpus@.contains(cpu));
                assert(cpus@.to_set() =~= cpus@.to_set().insert(cpu));
            }
            return ;
        }
        i += 1;
    }
    proof {
        lemma_push_to_set(cpus@, cpu);
    }
    cpus.push(cpu);
}

/// Parses a CPU list string such as `"0-3,6"` into the set of CPU indices
/// it denotes, each listed once.  The result is `Ok` exactly when the
/// string is a valid CPU list.
pub fn cpu_list_to_hashset(s: &str) -> (r: Result<Vec<u8>, ConstraintsError>)
    ensures
        r.is_ok() <==> valid_cpu_list(s@),
        r.is_ok() ==> r.unwrap()@.no_duplicates() && r.unwrap()@.to_set() == cpu_list_cpus(s@),
        r.is_err() ==> r.unwrap_err() == ConstraintsError::InvalidCpuList,
{
    if s.unicode_len() == 0 {
        return Err(ConstraintsError::InvalidCpuList);
    }
    let items = split_str(s, ',');
    let ghost gitems = split_on(s@, ',');
    let mut cpus: Vec<u8> = Vec::new();
    let mut i: usize = 0;
    proof {
        assert(cpus@.to_set() =~= cpu_items_cpus(gitems.take(0)));
    }
    while i < items.len()
        invariant
            items@.map_values(|p: String| p@) == gitems,
            gitems == split_on(s@, ','),
            s@.len() > 0,
            i <= items@.len(),
            cpus@.no_duplicates(),
            forall|k: int| 0 <= k < i ==> valid_cpu_item(#[trigger] gitems[k]),
            cpus@.to_set() == cpu_items_cpus(gitems.take(i as int)),
        decreases items@.len() - i,
    {
        let item: &String = &items[i];
        proof {
            assert(item@ == gitems[i as int]);
        }
        let parts = split_str(item.as_str(), '-');
        let ghost gparts = split_on(item@, '-');
        if parts.len() == 1 {
            proof {
                assert(parts@[0]@ == gparts[0]);
            }
            let v = match parse_u64_digits(parts[0].as_str()) {
                Some(v) => v,
                None => {
                    return Err(ConstraintsError::InvalidCpuList);
                },
            };
            if v > 255 {
                return Err(ConstraintsError::InvalidCpuList);
            }
            insert_cpu(&mut cpus, v as u8);
            proof {
                lemma_cpu_items_cpus_take(gitems, i as int);
                assert(cpu_item_cpus(gitems[i as int]) =~= Set::<u8>::empty().insert(v as u8));
                assert(cpus@.to_set() =~= cpu_items_cpus(gitems.take(i + 1)));
            }
        } else if parts.len() == 2 {
            proof {
                assert(parts@[0]@ == gparts[0]);
                assert(parts@[1]@ == gparts[1]);
            }
            let a = match parse_u64_digits(parts[0].as_str()) {
                Some(v) => v,
                None => {
                    return Err(ConstraintsError::InvalidCpuList);
                },
            };
            let b = match parse_u64_digits(parts[1].as_str()) {
                Some(v) => v,
                None => {
                    return Err(ConstraintsError::InvalidCpuList);
                },
            };
            if a > 255 || b > 255 {
                return Err(ConstraintsError::InvalidCpuList);
            }
            let lo: u8 = if a <= b {
                a as u8
            } else {
                b as u8
            };
            let hi: u8 = if a <= b {
                b as u8
            } else {
                a as u8
            };
            let ghost before = cpus@.to_set();
            let mut cnt: usize = 0;
            while cnt <= (hi - lo) as usize
                invariant
                    lo <= hi <= 255,
                    cnt <= hi - lo + 1,
                    cpus@.no_duplicates(),
                    cpus@.to_set() == before.union(
                        Set::new(|y: u8| lo <= y && (y as int) < lo + cnt),
                    ),
                decreases (hi - lo) as int + 1 - cnt,
            {
                let x: u8 = lo + (cnt as u8);
                insert_cpu(&mut cpus, x);
                proof {
                    assert(cpus@.to_set() =~= before.union(
                        Set::new(|y: u8| lo <= y && (y as int) < lo + cnt + 1),
                    ));
                }
                cnt += 1;
            }
            proof {
                lemma_cpu_items_cpus_take(gitems, i as int);
                assert(cpu_item_cpus(gitems[i as int]) =~= Set::new(
                    |y: u8| lo <= y && (y as int) < lo + ((hi - lo) as int + 1),
                ));
                assert(cpus@.to_set() =~= cpu_items_cpus(gitems.take(i + 1)));
            }
        } else {
            return Err(ConstraintsError::InvalidCpuList);
        }
        i += 1;
    }
    proof {
        assert(gitems.take(items@.len() as int) =~= gitems);
    }
    Ok(cpus)
}

/// Why constraints could not be built.
#[derive(PartialEq, Eq, Structural, Debug, Clone, Copy)]
pub enum ConstraintsError {
    /// The per-agent RAM limit is larger than the total RAM.
    AgentRamExceedsTotal,
    /// The CPU list string does not parse.
    InvalidCpuList,
    /// `cpus_per_agent` is zero or larger than the number of CPUs.
    CpusPerAgentExceedsCpus,
    /// A RAM amount in megabytes does not fit in bytes.
    RamOverflow,
}

/// How the set of available CPUs is chosen: automatically from the number
/// of physical cores, as the first `n` CPU indices, or from an explicit
/// CPU list string.
#[derive(Debug)]
pub enum AutoCpus {
    Auto,
    Count(usize),
    List(String),
}

/// Builder for [`Constraints`].  Every limit is optional; see
/// [`ConstraintsBuilder::build`] for the defaults.
#[derive(Debug)]
pub struct ConstraintsBuilder {
    /// Maximum total RAM over all agents, in megabytes.
    pub total_ram: Option<usize>,
    /// Maximum RAM per agent, in megabytes.
    pub agent_ram: Option<usize>,
    /// Which CPUs the agents may use.
    pub cpus: AutoCpus,
    /// Number of CPUs each agent gets.
    pub cpus_per_agent: Option<usize>,
    /// Total thinking time allowed per agent per match, in microseconds.
    pub time_budget: Option<u64>,
    /// Time allowed for a single action, in microseconds.
    pub action_time: Option<u64>,
}

/// Resource limits, and at the same time a pool of CPUs and RAM bytes.
#[derive(Debug)]
pub struct Constraints {
    /// RAM bytes held by this pool or slice.
    pub total_ram: usize,
    /// RAM bytes each agent may use.
    pub agent_ram: usize,
    /// The CPUs held by this pool or slice, each listed once.
    pub cpus: Vec<u8>,
    /// Number of CPUs each agent gets.
    pub cpus_per_agent: usize,
    /// Total thinking time per agent per match, in microseconds.
    pub time_budget: u64,
    /// Time allowed for a single action, in microseconds.
    pub action_time: u64,
}

/// Removing the last element of a duplicate-free sequence removes exactly
/// that element from the set of its elements.
proof fn lemma_drop_last_to_set(s: Seq<u8>)
    requires
        s.len() >= 1,
        s.no_duplicates(),
    ensures
        s.drop_last().no_duplicates(),
        !s.drop_last().contains(s.last()),
        s.drop_last().to_set() == s.to_set().remove(s.last()),
{
    let t = s.drop_last();
    assert forall|i: int| 0 <= i < t.len() implies t[i] != s.last() by {
        assert(t[i] == s[i]);
        assert(s[i] != s[s.len() - 1]);
    }
    assert(t.to_set() =~= s.to_set().remove(s.last())) by {
        assert forall|x: u8| t.to_set().contains(x) implies s.to_set().remove(s.last()).contains(
            x,
        ) by {
            let i = choose|i: int| 0 <= i < t.len() && t[i] == x;
            assert(s[i] == x);
            assert(s.contains(x));
        }
        assert forall|x: u8| s.to_set().remove(s.last()).contains(x) implies t.to_set().contains(
            x,
        ) by {
            let i = choose|i: int| 0 <= i < s.len() && s[i] == x;
            assert(i < t.len());
            assert(t[i] == x);
            assert(t.contains(x));
        }
    }
}

/// Appending an element adds exactly that element to the set of a
/// sequence's elements, and keeps it duplicate-free when it was new.
proof fn lemma_push_to_set(s: Seq<u8>, x: u8)
    ensures
        s.push(x).to_set() == s.to_set().insert(x),
        !s.contains(x) && s.no_duplicates() ==> s.push(x).no_duplicates(),
{
    let p = s.push(x);
    assert(p.to_set() =~= s.to_set().insert(x)) by {
        assert forall|y: u8| p.to_set().contains(y) implies s.to_set().insert(x).contains(y) by {
            let i = choose|i: int| 0 <= i < p.len() && p[i] == y;
            if i < s.len() {
                assert(s[i] == y);
                assert(s.contains(y));
            } else {
                assert(y == x);
            }
        }
        assert forall|y: u8| s.to_set().insert(x).contains(y) implies p.to_set().contains(y) by {
            if y == x {
                assert(p[p.len() - 1] == x);
                assert(p.contains(y));
            } else {
                let i = choose|i: int| 0 <= i < s.len() && s[i] == y;
                assert(p[i] == y);
                assert(p.contains(y));
            }
        }
    }
    if !s.contains(x) && s.no_duplicates() {
        assert forall|i: int, j: int|
            0 <= i < p.len() && 0 <= j < p.len() && i != j implies p[i] != p[j] by {
            if i < s.len() && j < s.len() {
                assert(s[i] == p[i] && s[j] == p[j]);
            } else if i < s.len() {
                assert(s.contains(s[i]));
            } else if j < s.len() {
                assert(s.contains(s[j]));
            }
        }
    }
}

impl Constraints {
    /// A pool is well formed when it lists every CPU at most once.
    pub open spec fn wf(&self) -> bool {
        self.cpus@.no_duplicates()
    }

    /// The CPUs held, as a set.
    pub open spec fn cpu_set(&self) -> Set<u8> {
        self.cpus@.to_set()
    }

    /// The per-agent limits, which every slice inherits from the pool.
    pub open spec fn same_limits(&self, other: &Constraints) -> bool {
        &&& self.agent_ram == other.agent_ram
        &&& self.cpus_per_agent == other.cpus_per_agent
        &&& self.time_budget == other.time_budget
        &&& self.action_time == other.action_time
    }

    /// Creates a builder with no limits set.
    pub fn builder() -> (b: ConstraintsBuilder)
        ensures
            b.total_ram.is_none(),
            b.agent_ram.is_none(),
            b.cpus is Auto,
            b.cpus_per_agent.is_none(),
            b.time_budget.is_none(),
            b.action_time.is_none(),
    {
        ConstraintsBuilder::new()
    }

    /// True when this pool holds the CPU `cpu`.
    pub fn contains_cpu(&self, cpu: u8) -> (r: bool)
        ensures
            r == self.cpus@.contains(cpu),
    {
        let mut i: usize = 0;
        while i < self.cpus.len()
            invariant
                i <= self.cpus@.len(),
                forall|k: int| 0 <= k < i ==> self.cpus@[k] != cpu,
            decreases self.cpus@.len() - i,
        {
            if self.cpus[i] == cpu {
                return true;
            }
            i += 1;
        }
        false
    }

    /// Returns a slice's resources to the pool: its RAM is added back and
    /// its CPUs are reunited with the pool's.
    pub fn add(&mut self, res: Constraints)
        requires
            old(self).wf(),
            res.wf(),
            old(self).total_ram + res.total_ram <= usize::MAX,
        ensures
            final(self).wf(),
            final(self).total_ram == old(self).total_ram + res.total_ram,
            final(self).cpu_set() == old(self).cpu_set().union(res.cpu_set()),
            final(self).same_limits(&*old(self)),
    {
        self.total_ram = self.total_ram + res.total_ram;
        let mut i: usize = 0;
        while i < res.cpus.len()
            invariant
                i <= res.cpus@.len(),
                self.wf(),
                res.wf(),
                self.cpu_set() == old(self).cpu_set().union(res.cpus@.take(i as int).to_set()),
                self.total_ram == old(self).total_ram + res.total_ram,
                self.same_limits(&*old(self)),
            decreases res.cpus@.len() - i,
        {
            let cpu = res.cpus[i];
            let present = self.contains_cpu(cpu);
            if !present {
                let ghost prev = self.cpus@;
                self.cpus.push(cpu);
                proof {
                    lemma_push_to_set(prev, cpu);
                }
            }
            proof {
                lemma_push_to_set(res.cpus@.take(i as int), cpu);
                assert(res.cpus@.take(i as int).push(cpu) =~= res.cpus@.take(i + 1));
                if present {
                    assert(self.cpus@.contains(cpu));
                    assert(self.cpu_set().contains(cpu));
                }
                assert(self.cpu_set() =~= old(self).cpu_set().union(
                    res.cpus@.take(i + 1).to_set(),
                ));
            }
            i += 1;
        }
        proof {
            assert(res.cpus@.take(res.cpus@.len() as int) =~= res.cpus@);
        }
    }

    /// Removes one CPU from the pool and hands it out.
    pub(crate) fn take_one_cpu(&mut self) -> (cpu: u8)
        requires
            old(self).wf(),
            old(self).cpus@.len() >= 1,
        ensures
            final(self).wf(),
            old(self).cpu_set().contains(cpu),
            final(self).cpu_set() == old(self).cpu_set().remove(cpu),
            final(self).cpus@.len() == old(self).cpus@.len() - 1,
            final(self).total_ram == old(self).total_ram,
            final(self).same_limits(&*old(self)),
    {
        let ghost prev = self.cpus@;
        let cpu = match self.cpus.pop() {
            Some(c) => c,
            None => {
                proof {
                    assert(false);
                }
                0
            },
        };
        proof {
            lemma_drop_last_to_set(prev);
            assert(prev[prev.len() - 1] == cpu);
            assert(prev.contains(cpu));
        }
        cpu
    }

    /// Carves a slice of `num_cpus` CPUs and `ram` bytes off the pool.  The
    /// slice holds exactly what the pool loses, so that returning the slice
    /// restores the pool; the slice's CPUs are disjoint from what remains.
    pub fn take(&mut self, num_cpus: usize, ram: usize) -> (slice: Constraints)
        requires
            old(self).wf(),
            old(self).cpus@.len() >= num_cpus,
            old(self).total_ram >= ram,
        ensures
            final(self).wf(),
            slice.wf(),
            slice.cpus@.len() == num_cpus,
            slice.total_ram == ram,
            slice.cpu_set().subset_of(old(self).cpu_set()),
            final(self).cpu_set() == old(self).cpu_set().difference(slice.cpu_set()),
            final(self).cpu_set().disjoint(slice.cpu_set()),
            final(self).cpus@.len() == old(self).cpus@.len() - num_cpus,
            final(self).total_ram == old(self).total_ram - ram,
            final(self).same_limits(&*old(self)),
            slice.same_limits(&*old(self)),
    {
        let mut cpus: Vec<u8> = Vec::new();
        let mut k: usize = 0;
        while k < num_cpus
            invariant
                k <= num_cpus,
                old(self).cpus@.len() >= num_cpus,
                self.wf(),
                cpus@.no_duplicates(),
                cpus@.len() == k,
                self.cpus@.len() == old(self).cpus@.len() - k,
                self.cpu_set().disjoint(cpus@.to_set()),
                cpus@.to_set().subset_of(old(self).cpu_set()),
                self.cpu_set() == old(self).cpu_set().difference(cpus@.to_set()),
                self.total_ram == old(self).total_ram,
                self.same_limits(&*old(self)),
            decreases num_cpus - k,
        {
            let ghost prev_taken = cpus@;
            let cpu = self.take_one_cpu();
            proof {
                assert(!prev_taken.to_set().contains(cpu));
                assert(!prev_taken.contains(cpu));
                lemma_push_to_set(prev_taken, cpu);
            }
            cpus.push(cpu);
            k += 1;
        }
        self.total_ram = self.total_ram - ram;
        Constraints {
            total_ram: ram,
            agent_ram: self.agent_ram,
            cpus,
            cpus_per_agent: self.cpus_per_agent,
            time_budget: self.time_budget,
            action_time: self.action_time,
        }
    }

    /// Takes a slice when the pool is large enough, and reports failure
    /// without touching the pool otherwise.
    pub fn try_take(&mut self, num_cpus: usize, ram: usize) -> (r: Option<Constraints>)
        requires
            old(self).wf(),
        ensures
            final(self).wf(),
            r.is_some() <==> old(self).cpus@.len() >= num_cpus && old(self).total_ram >= ram,
            r.is_none() ==> *final(self) == *old(self),
            r.is_some() ==> {
                let slice = r.unwrap();
                &&& slice.wf()
                &&& slice.cpus@.len() == num_cpus
                &&& slice.total_ram == ram
                &&& slice.cpu_set().subset_of(old(self).cpu_set())
                &&& final(self).cpu_set() == old(self).cpu_set().difference(slice.cpu_set())
                &&& final(self).cpu_set().disjoint(slice.cpu_set())
                &&& final(self).cpus@.len() == old(self).cpus@.len() - num_cpus
                &&& final(self).total_ram == old(self).total_ram - ram
                &&& final(self).same_limits(&*old(self))
                &&& slice.same_limits(&*old(self))
            },
    {
        if self.cpus.len() >= num_cpus && self.total_ram >= ram {
            Some(self.take(num_cpus, ram))
        } else {
            None
        }
    }
}

/// Law: resources are conserved.  A slice carved off a pool and later
/// returned restores exactly the pool's CPU set and RAM: what a match
/// frees is what it consumed.
pub proof fn lemma_resource_conservation(
    pool0: Constraints,
    pool1: Constraints,
    pool2: Constraints,
    slice: Constraints,
)
    requires
        slice.cpu_set().subset_of(pool0.cpu_set()),
        pool1.cpu_set() == pool0.cpu_set().difference(slice.cpu_set()),
        pool1.total_ram == pool0.total_ram - slice.total_ram,
        pool2.cpu_set() == pool1.cpu_set().union(slice.cpu_set()),
        pool2.total_ram == pool1.total_ram + slice.total_ram,
    ensures
        pool2.cpu_set() == pool0.cpu_set(),
        pool2.total_ram == pool0.total_ram,
{
    assert(pool2.cpu_set() =~= pool0.cpu_set());
}

/// Law: seats are disjoint.  Two slices taken one after the other from the
/// same pool hold disjoint CPU sets, so no two concurrent matches share a
/// CPU.
pub proof fn lemma_seat_disjointness(
    pool0: Constraints,
    pool1: Constraints,
    s1: Constraints,
    s2: Constraints,
)
    requires
        pool1.cpu_set() == pool0.cpu_set().difference(s1.cpu_set()),
        s2.cpu_set().subset_of(pool1.cpu_set()),
    ensures
        s1.cpu_set().disjoint(s2.cpu_set()),
{
}

impl ConstraintsBuilder {
    /// Creates a builder with no limits set.
    pub fn new() -> (b: ConstraintsBuilder)
        ensures
            b.total_ram.is_none(),
            b.agent_ram.is_none(),
            b.cpus is Auto,
            b.cpus_per_agent.is_none(),
            b.time_budget.is_none(),
            b.action_time.is_none(),
    {
        ConstraintsBuilder {
            total_ram: None,
            agent_ram: None,
            cpus: AutoCpus::Auto,
            cpus_per_agent: None,
            time_budget: None,
            action_time: None,
        }
    }

    /// Sets the maximum total RAM available across all agents, in MB.
    pub fn with_max_total_ram(self, max: usize) -> (b: ConstraintsBuilder)
        ensures
            b == (ConstraintsBuilder { total_ram: Some(max), ..self }),
    {
        ConstraintsBuilder { total_ram: Some(max), ..self }
    }

    /// Sets the maximum RAM available per agent, in MB.
    pub fn with_ram_per_agent(self, max: usize) -> (b: ConstraintsBuilder)
        ensures
            b == (ConstraintsBuilder { agent_ram: Some(max), ..self }),
    {
        ConstraintsBuilder { agent_ram: Some(max), ..self }
    }

    /// Sets the available CPUs with a list string such as `"0-3,6,8"`
    /// (inclusive ranges and individual indices).
    pub fn with_cpu_list(self, cpus: &str) -> (b: ConstraintsBuilder)
        ensures
            b.cpus is List && (b.cpus->List_0)@ == cpus@,
            b.total_ram == self.total_ram,
            b.agent_ram == self.agent_ram,
            b.cpus_per_agent == self.cpus_per_agent,
            b.time_budget == self.time_budget,
            b.action_time == self.action_time,
    {
        ConstraintsBuilder { cpus: AutoCpus::List(cpus.to_owned()), ..self }
    }

    /// Sets the total number of CPUs available across all agents; ignored
    /// when a CPU list was given.
    pub fn with_total_cpu_count(self, max: usize) -> (b: ConstraintsBuilder)
        ensures
            self.cpus is List ==> b == self,
            !(self.cpus is List) ==> b == (ConstraintsBuilder {
                cpus: AutoCpus::Count(max),
                ..self
            }),
    {
        if let AutoCpus::List(_) = &self.cpus {
            self
        } else {
            ConstraintsBuilder { cpus: AutoCpus::Count(max), ..self }
        }
    }

    /// Sets the number of CPUs available per agent (default one).
    pub fn with_cpus_per_agent(self, max: usize) -> (b: ConstraintsBuilder)
        ensures
            b == (ConstraintsBuilder { cpus_per_agent: Some(max), ..self }),
    {
        ConstraintsBuilder { cpus_per_agent: Some(max), ..self }
    }

    /// Sets the total allowed thinking time for an agent across a whole
    /// match, in microseconds.
    pub fn with_time_budget(self, duration_us: u64) -> (b: ConstraintsBuilder)
        ensures
            b == (ConstraintsBuilder { time_budget: Some(duration_us), ..self }),
    {
        ConstraintsBuilder { time_budget: Some(duration_us), ..self }
    }

    /// Sets the time allowed for a single action, in microseconds.
    pub fn with_action_timeout(self, duration_us: u64) -> (b: ConstraintsBuilder)
        ensures
            b == (ConstraintsBuilder { action_time: Some(duration_us), ..self }),
    {
        ConstraintsBuilder { action_time: Some(duration_us), ..self }
    }
}

/// The raw values of the environment variables that configure
/// constraints: `None` where a variable is unset.  Reading the process
/// environment is left to the embedding program.
#[derive(Debug)]
pub struct ConstraintsEnv {
    /// `MAX_TOTAL_RAM`, in megabytes.
    pub max_total_ram: Option<String>,
    /// `RAM_PER_AGENT`, in megabytes.
    pub ram_per_agent: Option<String>,
    /// `CPU_LIST`, a list string such as `"0-3,6"`.
    pub cpu_list: Option<String>,
    /// `TOTAL_CPU_COUNT`; overridden by `CPU_LIST`.
    pub total_cpu_count: Option<String>,
    /// `CPUS_PER_AGENT`.
    pub cpus_per_agent: Option<String>,
    /// `TIME_BUDGET_SECS`, in seconds.
    pub time_budget_secs: Option<String>,
    /// `ACTION_TIMEOUT_MS`, in milliseconds.
    pub action_timeout_ms: Option<String>,
}

impl ConstraintsEnv {
    /// An environment with none of the variables set.
    pub fn unset() -> (env: ConstraintsEnv)
        ensures
            env.max_total_ram.is_none(),
            env.ram_per_agent.is_none(),
            env.cpu_list.is_none(),
            env.total_cpu_count.is_none(),
            env.cpus_per_agent.is_none(),
            env.time_budget_secs.is_none(),
            env.action_timeout_ms.is_none(),
    {
        ConstraintsEnv {
            max_total_ram: None,
            ram_per_agent: None,
            cpu_list: None,
            total_cpu_count: None,
            cpus_per_agent: None,
            time_budget_secs: None,
            action_timeout_ms: None,
        }
    }
}

/// What a numeric environment variable denotes: its decimal value when it
/// is set, consists of digits, and fits the platform's `usize`.
pub open spec fn env_usize(o: Option<String>) -> Option<usize> {
    match o {
        Some(s) => if s@.len() > 0 && all_digits(s@) && digits_value(s@) <= usize::MAX {
            Some(digits_value(s@) as usize)
        } else {
            None
        },
        None => None,
    }
}

/// What a numeric environment variable denotes as a `u64`.
pub open spec fn env_u64(o: Option<String>) -> Option<u64> {
    match o {
        Some(s) => if s@.len() > 0 && all_digits(s@) && digits_value(s@) <= u64::MAX {
            Some(digits_value(s@) as u64)
        } else {
            None
        },
        None => None,
    }
}

/// Multiplication into microseconds, saturating at `u64::MAX`, which
/// stands for "unlimited".
pub open spec fn sat_mul_u64(v: u64, factor: int) -> u64 {
    if v * factor > u64::MAX {
        u64::MAX
    } else {
        (v * factor) as u64
    }
}

/// Reads a decimal environment value as a `usize`.
fn parse_env_usize(o: &Option<String>) -> (r: Option<usize>)
    ensures
        r == env_usize(*o),
{
    match o {
        Some(s) => match parse_u64_digits(s.as_str()) {
            Some(v) => if v <= usize::MAX as u64 {
                Some(v as usize)
            } else {
                None
            },
            None => None,
        },
        None => None,
    }
}

/// Reads a decimal environment value as a `u64`.
fn parse_env_u64(o: &Option<String>) -> (r: Option<u64>)
    ensures
        r == env_u64(*o),
{
    match o {
        Some(s) => parse_u64_digits(s.as_str()),
        None => None,
    }
}

impl ConstraintsBuilder {
    /// Creates a builder from environment-variable values: RAM figures in
    /// megabytes, the CPU choice from `CPU_LIST` or else `TOTAL_CPU_COUNT`,
    /// the time budget in seconds and the action timeout in milliseconds
    /// (both converted to microseconds, saturating at "unlimited").  A
    /// value that does not parse counts as unset.
    pub fn from_env(env: ConstraintsEnv) -> (b: ConstraintsBuilder)
        ensures
            b.total_ram == env_usize(env.max_total_ram),
            b.agent_ram == env_usize(env.ram_per_agent),
            env.cpu_list.is_some() ==> b.cpus == AutoCpus::List(env.cpu_list.unwrap()),
            env.cpu_list.is_none() ==> (match env_usize(env.total_cpu_count) {
                Some(n) => b.cpus == AutoCpus::Count(n),
                None => b.cpus is Auto,
            }),
            b.time_budget == (match env_u64(env.time_budget_secs) {
                Some(v) => Some(sat_mul_u64(v, 1_000_000)),
                None => None::<u64>,
            }),
            b.action_time == (match env_u64(env.action_timeout_ms) {
                Some(v) => Some(sat_mul_u64(v, 1_000)),
                None => None::<u64>,
            }),
    {
        let total_ram = parse_env_usize(&env.max_total_ram);
        let agent_ram = parse_env_usize(&env.ram_per_agent);
        let total_cpu_count = parse_env_usize(&env.total_cpu_count);
        let cpus = match env.cpu_list {
            Some(s) => AutoCpus::List(s),
            None => match total_cpu_count {
                Some(n) => AutoCpus::Count(n),
                None => AutoCpus::Auto,
            },
        };
        let time_budget = match parse_env_u64(&env.time_budget_secs) {
            Some(v) => Some(
                match v.checked_mul(1_000_000) {
                    Some(w) => w,
                    None => u64::MAX,
                },
            ),
            None => None,
        };
        let action_time = match parse_env_u64(&env.action_timeout_ms) {
            Some(v) => Some(
                match v.checked_mul(1_000) {
                    Some(w) => w,
                    None => u64::MAX,
                },
            ),
            None => None,
        };
        ConstraintsBuilder { total_ram, agent_ram, cpus, cpus_per_agent: parse_env_usize(
            &env.cpus_per_agent,
        ), time_budget, action_time }
    }
}

/// The total RAM in megabytes overflows when turned into bytes.
pub open spec fn total_ram_overflows(b: &ConstraintsBuilder) -> bool {
    b.total_ram.is_some() && mb(b.total_ram.unwrap() as int) > usize::MAX
}

/// The per-agent RAM in megabytes overflows when turned into bytes.
pub open spec fn agent_ram_overflows(b: &ConstraintsBuilder) -> bool {
    b.agent_ram.is_some() && mb(b.agent_ram.unwrap() as int) > usize::MAX
}

/// The total RAM in bytes: the builder's figure, or the machine's
/// available memory when none was given.
pub open spec fn spec_total_ram(b: &ConstraintsBuilder, available_ram: usize) -> int {
    match b.total_ram {
        Some(m) => mb(m as int),
        None => available_ram as int,
    }
}

/// The per-agent RAM explicitly asked for, in bytes; 0 when none was given.
pub open spec fn spec_agent_ram_request(b: &ConstraintsBuilder) -> int {
    match b.agent_ram {
        Some(m) => mb(m as int),
        None => 0,
    }
}

/// The first `k` CPU indices.
pub open spec fn prefix_cpus(k: int) -> Set<u8> {
    Set::new(|x: u8| (x as int) < k)
}

/// The CPU set a builder denotes: the machine's physical cores, the first
/// `n` indices, or the parsed CPU list.  CPU indices are `u8`, so at most
/// the first 256 CPUs can be used.
pub open spec fn spec_cpu_choice(b: &ConstraintsBuilder, physical_cpus: usize) -> Set<u8> {
    match b.cpus {
        AutoCpus::Auto => prefix_cpus(vstd::math::min(physical_cpus as int, 256)),
        AutoCpus::Count(n) => prefix_cpus(vstd::math::min(n as int, 256)),
        AutoCpus::List(s) => cpu_list_cpus(s@),
    }
}

/// The number of CPUs each agent gets: one unless the builder says more.
pub open spec fn spec_cpus_per_agent(b: &ConstraintsBuilder) -> int {
    match b.cpus_per_agent {
        Some(n) => n as int,
        None => 1,
    }
}

/// The first error that `build` reports, in the order the checks run, or
/// `None` when building succeeds.
pub open spec fn spec_build_error(b: &ConstraintsBuilder, available_ram: usize, physical_cpus: usize) -> Option<ConstraintsError> {
    if total_ram_overflows(b) {
        Some(ConstraintsError::RamOverflow)
    } else if agent_ram_overflows(b) {
        Some(ConstraintsError::RamOverflow)
    } else if spec_total_ram(b, available_ram) < spec_agent_ram_request(b) {
        Some(ConstraintsError::AgentRamExceedsTotal)
    } else if (b.cpus matches AutoCpus::List(s) && !valid_cpu_list(s@)) {
        Some(ConstraintsError::InvalidCpuList)
    } else if spec_cpus_per_agent(b) == 0 || spec_cpu_choice(b, physical_cpus).len()
        < spec_cpus_per_agent(b) {
        Some(ConstraintsError::CpusPerAgentExceedsCpus)
    } else {
        None
    }
}

/// The first `k` CPU indices, as a list.
fn first_cpus(k: usize) -> (cpus: Vec<u8>)
    requires
        k <= 256,
    ensures
        cpus@.no_duplicates(),
        cpus@.to_set() == prefix_cpus(k as int),
        cpus@.len() == k,
{
    let mut cpus: Vec<u8> = Vec::new();
    let mut i: usize = 0;
    proof {
        assert(cpus@.to_set() =~= prefix_cpus(0));
    }
    while i < k
        invariant
            k <= 256,
            i <= k,
            cpus@.no_duplicates(),
            cpus@.len() == i,
            cpus@.to_set() == prefix_cpus(i as int),
        decreases k - i,
    {
        proof {
            assert(!cpus@.to_set().contains(i as u8));
            lemma_push_to_set(cpus@, i as u8);
        }
        cpus.push(i as u8);
        proof {
            assert(cpus@.to_set() =~= prefix_cpus(i + 1));
        }
        i += 1;
    }
    cpus
}

/// What building against the machine figures `(available_ram,
/// physical_cpus)` yields: the result is `Err` exactly when a check of
/// `spec_build_error` fails (with that error), and otherwise carries the
/// RAM figures in bytes, the chosen CPU set, and the time limits
/// (unlimited when unset).
pub open spec fn built_outcome(
    b: ConstraintsBuilder,
    available_ram: usize,
    physical_cpus: usize,
    r: Result<Constraints, ConstraintsError>,
) -> bool {
    &&& (r.is_err() <==> spec_build_error(&b, available_ram, physical_cpus).is_some())
    &&& (r.is_err() ==> r.unwrap_err() == spec_build_error(
        &b,
        available_ram,
        physical_cpus,
    ).unwrap())
    &&& (r.is_ok() ==> ({
        let c = r.unwrap();
        &&& c.wf()
        &&& c.total_ram == spec_total_ram(&b, available_ram)
        &&& c.cpu_set() == spec_cpu_choice(&b, physical_cpus)
        &&& c.cpus@.len() == spec_cpu_choice(&b, physical_cpus).len()
        &&& c.cpus_per_agent == spec_cpus_per_agent(&b)
        &&& c.agent_ram == (match b.agent_ram {
            Some(m) => mb(m as int),
            None => spec_total_ram(&b, available_ram) / (
            spec_cpu_choice(&b, physical_cpus).len() as int / spec_cpus_per_agent(&b)),
        })
        &&& c.agent_ram <= c.total_ram
        &&& 1 <= c.cpus_per_agent <= c.cpus@.len()
        &&& c.time_budget == (match b.time_budget {
            Some(t) => t,
            None => u64::MAX,
        })
        &&& c.action_time == (match b.action_time {
            Some(t) => t,
            None => u64::MAX,
        })
    }))
}

impl ConstraintsBuilder {
    /// Builds the constraints against given machine figures: the RAM that
    /// is available and the number of physical cores, which stand in for
    /// the limits that were not set explicitly.  See [`built_outcome`]
    /// for the exact result.
    pub fn build_with_system(self, available_ram: usize, physical_cpus: usize) -> (r: Result<
        Constraints,
        ConstraintsError,
    >)
        ensures
            built_outcome(self, available_ram, physical_cpus, r),
    {
        let total_ram: usize = match self.total_ram {
            Some(m) => match m.checked_mul(1_000_000) {
                Some(v) => v,
                None => {
                    return Err(ConstraintsError::RamOverflow);
                },
            },
            None => available_ram,
        };
        let agent_ram_request: usize = match self.agent_ram {
            Some(m) => match m.checked_mul(1_000_000) {
                Some(v) => v,
                None => {
                    return Err(ConstraintsError::RamOverflow);
                },
            },
            None => 0,
        };
        if total_ram < agent_ram_request {
            return Err(ConstraintsError::AgentRamExceedsTotal);
        }
        let cpus: Vec<u8> = match &self.cpus {
            AutoCpus::Auto => first_cpus(
                if physical_cpus > 256 {
                    256
                } else {
                    physical_cpus
                },
            ),
            AutoCpus::Count(n) => first_cpus(
                if *n > 256 {
                    256
                } else {
                    *n
                },
            ),
            AutoCpus::List(s) => match cpu_list_to_hashset(s.as_str()) {
                Ok(v) => v,
                Err(e) => {
                    return Err(e);
                },
            },
        };
        proof {
            cpus@.unique_seq_to_set();
        }
        let cpus_per_agent: usize = match self.cpus_per_agent {
            Some(n) => n,
            None => 1,
        };
        if cpus_per_agent == 0 || cpus.len() < cpus_per_agent {
            return Err(ConstraintsError::CpusPerAgentExceedsCpus);
        }
        proof {
            assert(cpus@.len() as int / (cpus_per_agent as int) >= 1) by (nonlinear_arith)
                requires
                    cpus@.len() >= cpus_per_agent,
                    cpus_per_agent >= 1,
            ;
        }
        let agent_ram: usize = match self.agent_ram {
            Some(_) => agent_ram_request,
            None => total_ram / (cpus.len() / cpus_per_agent),
        };
        let time_budget: u64 = match self.time_budget {
            Some(t) => t,
            None => u64::MAX,
        };
        let action_time: u64 = match self.action_time {
            Some(t) => t,
            None => u64::MAX,
        };
        Ok(
            Constraints {
                total_ram,
                agent_ram,
                cpus,
                cpus_per_agent,
                time_budget,
                action_time,
            },
        )
    }

    /// Builds the constraints, asking the machine for its available RAM
    /// and physical core count where no explicit limit was set.  The
    /// result is a `built_outcome` for the machine's figures, whatever
    /// they were: in particular, with every limit set explicitly the
    /// outcome does not depend on them at all.
    pub fn build(self) -> (r: Result<Constraints, ConstraintsError>)
        ensures
            exists|ar: usize, pc: usize| built_outcome(self, ar, pc, r),
            r.is_ok() ==> ({
                let c = r.unwrap();
                &&& c.wf()
                &&& c.agent_ram <= c.total_ram
                &&& 1 <= c.cpus_per_agent <= c.cpus@.len()
                &&& c.time_budget == (match self.time_budget {
                    Some(t) => t,
                    None => u64::MAX,
                })
                &&& c.action_time == (match self.action_time {
                    Some(t) => t,
                    None => u64::MAX,
                })
            }),
    {
        let ghost b0 = self;
        let mut sys = sysinfo::System::new();
        sys.refresh_memory();
        let available = sys.available_memory();
        let available_ram: usize = if available > usize::MAX as u64 {
            usize::MAX
        } else {
            available as usize
        };
        let physical_cpus = num_cpus::get_physical();
        let r = self.build_with_system(available_ram, physical_cpus);
        proof {
            assert(built_outcome(b0, available_ram, physical_cpus, r));
        }
        r
    }
}

/// Relies on sysinfo's `System`, the handle through which the machine's
/// memory figures are read; the library only carries values of it between
/// the calls below.
#[verifier::external_type_specification]
#[verifier::external_body]
pub struct ExSystem(sysinfo::System);

/// Relies on `sysinfo::System::new`: creates a handle with nothing
/// refreshed yet.
pub assume_specification[ sysinfo::System::new ]() -> sysinfo::System;

/// Relies on `sysinfo::System::refresh_memory`: reloads the RAM figures
/// from the machine into the handle.
pub assume_specification[ sysinfo::System::refresh_memory ](s: &mut sysinfo::System);

/// Relies on `sysinfo::System::available_memory`: the bytes of RAM
/// available for use.  The figure depends on the machine at that moment,
/// so nothing is promised of the value.
pub assume_specification[ sysinfo::System::available_memory ](s: &sysinfo::System) -> u64;

/// Relies on `num_cpus::get_physical`: the machine's physical core count.
/// The figure depends on the machine, so nothing is promised of the value.
pub assume_specification[ num_cpus::get_physical ]() -> usize;

impl Default for ConstraintsBuilder {
    /// The default builder has no limits set.
    fn default() -> (b: Self)
        ensures
            b.total_ram.is_none(),
            b.agent_ram.is_none(),
            b.cpus is Auto,
            b.cpus_per_agent.is_none(),
            b.time_budget.is_none(),
            b.action_time.is_none(),
    {
        ConstraintsBuilder::new()
    }
}

impl Clone for Constraints {
    /// The clone holds the same limits and the same CPUs.
    fn clone(&self) -> (res: Self)
        ensures
            res.total_ram == self.total_ram,
            res.agent_ram == self.agent_ram,
            res.cpus@ == self.cpus@,
            res.cpus_per_agent == self.cpus_per_agent,
            res.time_budget == self.time_budget,
            res.action_time == self.action_time,
            res.wf() == self.wf(),
            res.cpu_set() == self.cpu_set(),
    {
        let cpus = self.cpus.clone();
        proof {
            assert(cpus@ =~= self.cpus@);
        }
        Constraints {
            total_ram: self.total_ram,
            agent_ram: self.agent_ram,
            cpus,
            cpus_per_agent: self.cpus_per_agent,
            time_budget: self.time_budget,
            action_time: self.action_time,
        }
    }
}

} // verus!
