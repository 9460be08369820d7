//! Naming and command-line plumbing for the process supervisor.
//!
//! Launching and containing the agents' processes is the embedding
//! program's job; what the library contributes is the exact shape of the
//! cgroup path and of the child's command line, per the documented
//! contract: `<binary> <port> <time_budget_us> <action_timeout_us>
//! [config args…]`, wrapped in a `taskset` pinning call.

use crate::parse::all_digits;
use crate::parse::digit_value;
use crate::parse::digits_value;
use crate::parse::is_digit_char;
use vstd::prelude::*;

verus! {

/// The cgroup for a supervised child sits in the current user's slice.
pub fn get_cgroup_path(user_id: &str, group_name: &str) -> (path: String)
    ensures
        path@ == "user.slice/user-"@ + user_id@ + ".slice/user@"@ + user_id@ + ".service/"@
            + group_name@,
{
    let mut path = String::new();
    path.append("user.slice/user-");
    path.append(user_id);
    path.append(".slice/user@");
    path.append(user_id);
    path.append(".service/");
    path.append(group_name);
    path
}

/// Ten to the `k`.
spec fn pow10(k: nat) -> int
    decreases k,
{
    if k == 0 {
        1
    } else {
        10 * pow10((k - 1) as nat)
    }
}

/// The number a digit list denotes, most significant digit first.
spec fn value_of(ds: Seq<u64>) -> int
    decreases ds.len(),
{
    if ds.len() == 0 {
        0
    } else {
        value_of(ds.drop_last()) * 10 + ds.last()
    }
}

/// Prepending a digit adds it at the most significant position.
proof fn lemma_value_of_cons(d: u64, ds: Seq<u64>)
    ensures
        value_of(seq![d] + ds) == d * pow10(ds.len()) + value_of(ds),
    decreases ds.len(),
{
    if ds.len() == 0 {
        assert(seq![d] + ds =~= seq![d]);
        assert(seq![d].drop_last() =~= Seq::<u64>::empty());
        assert(value_of(Seq::<u64>::empty()) == 0);
        assert(value_of(seq![d]) == d);
    } else {
        assert((seq![d] + ds).len() == 1 + ds.len());
        assert((seq![d] + ds)[0] == d);
        assert(forall|t: int| 0 <= t < ds.len() ==> (seq![d] + ds)[t + 1] == ds[t]);
        assert((seq![d] + ds).drop_last() =~= seq![d] + ds.drop_last());
        assert((seq![d] + ds).last() == ds.last());
        assert(pow10(ds.len()) == 10 * pow10((ds.len() - 1) as nat));
        lemma_value_of_cons(d, ds.drop_last());
        assert((d * pow10((ds.len() - 1) as nat) + value_of(ds.drop_last())) * 10 == d * (10
            * pow10((ds.len() - 1) as nat)) + value_of(ds.drop_last()) * 10) by (nonlinear_arith);
    }
}

/// The single-character string of a decimal digit.
fn digit_str(d: u64) -> (r: &'static str)
    requires
        d < 10,
    ensures
        r@.len() == 1,
        is_digit_char(r@[0]),
        digit_value(r@[0]) == d,
{
    proof {
        reveal_strlit("0");
        reveal_strlit("1");
        reveal_strlit("2");
        reveal_strlit("3");
        reveal_strlit("4");
        reveal_strlit("5");
        reveal_strlit("6");
        reveal_strlit("7");
        reveal_strlit("8");
        reveal_strlit("9");
    }
    if d == 0 {
        "0"
    } else if d == 1 {
        "1"
    } else if d == 2 {
        "2"
    } else if d == 3 {
        "3"
    } else if d == 4 {
        "4"
    } else if d == 5 {
        "5"
    } else if d == 6 {
        "6"
    } else if d == 7 {
        "7"
    } else if d == 8 {
        "8"
    } else {
        "9"
    }
}

/// The decimal representation of the value: digits only, nonempty, and
/// without a leading zero except for the value 0 itself.
fn u64_to_string(v: u64) -> (r: String)
    ensures
        r@.len() >= 1,
        all_digits(r@),
        digits_value(r@) == v,
        r@[0] == '0' ==> r@.len() == 1,
{
    // Peel digits off the low end, building the list most significant
    // digit first.
    let mut ds: Vec<u64> = Vec::new();
    let mut cur: u64 = v;
    ds.insert(0, cur % 10);
    cur = cur / 10;
    proof {
        assert(ds@ =~= seq![v % 10]);
        assert(ds@.drop_last() =~= Seq::<u64>::empty());
        assert(value_of(Seq::<u64>::empty()) == 0);
        assert(value_of(ds@) == v % 10);
        assert(pow10(0) == 1);
        assert(pow10(1) == 10 * pow10(0));
    }
    while cur > 0
        invariant
            ds@.len() >= 1,
            forall|j: int| 0 <= j < ds@.len() ==> (#[trigger] ds@[j]) < 10,
            v as int == cur * pow10(ds@.len() as nat) + value_of(ds@),
            cur == 0 && ds@.len() >= 2 ==> ds@[0] >= 1,
        decreases cur,
    {
        let ghost ds0 = ds@;
        let ghost cur0 = cur;
        let d = cur % 10;
        ds.insert(0, d);
        cur = cur / 10;
        proof {
            assert(ds@ =~= seq![d] + ds0);
            lemma_value_of_cons(d, ds0);
            assert((10 * (cur as int) + d) * pow10(ds0.len() as nat) == (cur as int) * (10
                * pow10(ds0.len() as nat)) + d * pow10(ds0.len() as nat)) by (nonlinear_arith);
            assert(pow10(ds@.len() as nat) == 10 * pow10(ds0.len() as nat));
            if cur == 0 {
                assert(cur0 <= 9);
                assert(d >= 1);
            }
        }
    }
    proof {
        assert((cur as int) * pow10(ds@.len() as nat) == 0) by (nonlinear_arith)
            requires
                cur == 0,
        ;
        assert(value_of(ds@) == v);
    }
    // Render the digits in order.
    let total = ds.len();
    let mut r = String::new();
    let mut j: usize = 0;
    while j < total
        invariant
            total == ds@.len(),
            j <= total,
            forall|t: int| 0 <= t < ds@.len() ==> (#[trigger] ds@[t]) < 10,
            r@.len() == j,
            forall|t: int| 0 <= t < r@.len() ==> is_digit_char(#[trigger] r@[t]),
            digits_value(r@) == value_of(ds@.take(j as int)),
            forall|t: int| 0 <= t < j ==> digit_value(#[trigger] r@[t]) == ds@[t],
        decreases total - j,
    {
        let ghost r0 = r@;
        let c = digit_str(ds[j]);
        r.append(c);
        proof {
            assert(r@ =~= r0 + c@);
            assert(r@.drop_last() =~= r0);
            assert(r@.last() == c@[0]);
            assert(ds@.take(j + 1).drop_last() =~= ds@.take(j as int));
            assert(ds@.take(j + 1).last() == ds@[j as int]);
        }
        j += 1;
    }
    proof {
        assert(ds@.take(total as int) =~= ds@);
        assert(digits_value(r@) == v);
        if r@[0] == '0' {
            assert(digit_value(r@[0]) == 0);
            assert(ds@[0] == 0);
            assert(ds@.len() < 2);
        }
    }
    r
}

/// The command line that launches one agent: a `taskset` pinning wrapper
/// around the agent's binary, which receives the port to connect to, its
/// time budget and action timeout in microseconds, and its configured
/// extra arguments.
pub fn build_client_argv(
    cpu_list: &str,
    agent_path: &str,
    port: u16,
    time_budget_us: u64,
    action_timeout_us: u64,
    extra_args: &Vec<String>,
) -> (argv: Vec<String>)
    ensures
        argv@.len() == 7 + extra_args@.len(),
        argv@[0]@ == "taskset"@,
        argv@[1]@ == "-c"@,
        argv@[2]@ == cpu_list@,
        argv@[3]@ == agent_path@,
        all_digits(argv@[4]@) && digits_value(argv@[4]@) == port,
        all_digits(argv@[5]@) && digits_value(argv@[5]@) == time_budget_us,
        all_digits(argv@[6]@) && digits_value(argv@[6]@) == action_timeout_us,
        forall|k: int| 0 <= k < extra_args@.len() ==> argv@[7 + k]@ == (#[trigger] extra_args@[k])@,
{
    let mut argv: Vec<String> = Vec::new();
    argv.push(String::from_str("taskset"));
    argv.push(String::from_str("-c"));
    argv.push(String::from_str(cpu_list));
    argv.push(String::from_str(agent_path));
    argv.push(u64_to_string(port as u64));
    argv.push(u64_to_string(time_budget_us));
    argv.push(u64_to_string(action_timeout_us));
    let mut k: usize = 0;
    while k < extra_args.len()
        invariant
            k <= extra_args@.len(),
            argv@.len() == 7 + k,
            argv@[0]@ == "taskset"@,
            argv@[1]@ == "-c"@,
            argv@[2]@ == cpu_list@,
            argv@[3]@ == agent_path@,
            all_digits(argv@[4]@) && digits_value(argv@[4]@) == port,
            all_digits(argv@[5]@) && digits_value(argv@[5]@) == time_budget_us,
            all_digits(argv@[6]@) && digits_value(argv@[6]@) == action_timeout_us,
            forall|t: int| 0 <= t < k ==> argv@[7 + t]@ == (#[trigger] extra_args@[t])@,
        decreases extra_args@.len() - k,
    {
        argv.push(extra_args[k].clone());
        k += 1;
    }
    argv
}

} // verus!
