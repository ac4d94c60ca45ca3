//! The amplifier network: processors sharing one program, wired in a ring
//! and scheduled round-robin one instruction at a time.
use itertools::Itertools;
use vstd::prelude::*;

use crate::decode::VmError;
use crate::machine::{initial_state, step, Computer, MachineState};

verus! {

/// The abstract state of a network.
pub struct NetworkState {
    /// The amplifiers, in ring order.
    pub amps: Seq<MachineState>,
    /// The value on its way to the next amplifier in ring order, if any.
    pub carried: Option<i64>,
}

/// Why a network run gave no result.
#[derive(Debug, Clone, Copy, PartialEq, Eq, Structural)]
pub enum NetworkError {
    /// An amplifier hit a fatal error.
    Fault(VmError),
    /// The pass budget ran out before every amplifier halted.
    PassLimit,
}

/// A value delivered to an amplifier's input queue.
pub open spec fn deliver(c: MachineState, carried: Option<i64>) -> MachineState {
    match carried {
        Some(v) => MachineState { input: c.input.push(v), ..c },
        None => c,
    }
}

/// One amplifier's turn: take the carried value, execute one instruction,
/// and hand on the oldest output, if there is one.
pub open spec fn amp_turn(c: MachineState, carried: Option<i64>) -> Result<
    (MachineState, Option<i64>),
    VmError,
> {
    match step(deliver(c, carried)) {
        Err(e) => Err(e),
        Ok((c2, _)) => if c2.output.len() > 0 {
            Ok((MachineState { output: c2.output.drop_first(), ..c2 }, Some(c2.output[0])))
        } else {
            Ok((c2, None))
        },
    }
}

/// The rest of a pass over the ring, from amplifier `k` on.
pub open spec fn pass_from(amps: Seq<MachineState>, carried: Option<i64>, k: nat) -> Result<
    (Seq<MachineState>, Option<i64>),
    VmError,
>
    decreases amps.len() - k,
{
    if k >= amps.len() {
        Ok((amps, carried))
    } else {
        match amp_turn(amps[k as int], carried) {
            Err(e) => Err(e),
            Ok((c, out)) => pass_from(amps.update(k as int, c), out, k + 1),
        }
    }
}

pub open spec fn all_halted(amps: Seq<MachineState>) -> bool {
    forall|i: int| 0 <= i < amps.len() ==> (#[trigger] amps[i]).halted
}

/// Passes over the ring until a pass ends with every amplifier halted, for
/// at most `fuel` passes; `None` when the budget runs out first.
pub open spec fn run_network(n: NetworkState, fuel: nat) -> Result<Option<NetworkState>, VmError>
    decreases fuel,
{
    if fuel == 0 {
        Ok(None)
    } else {
        match pass_from(n.amps, n.carried, 0) {
            Err(e) => Err(e),
            Ok((amps, carried)) => {
                let n2 = NetworkState { amps, carried };
                if all_halted(amps) {
                    Ok(Some(n2))
                } else {
                    run_network(n2, (fuel - 1) as nat)
                }
            },
        }
    }
}

/// A fresh network: one processor per phase setting, each with its phase
/// as its first input, and the seed 0 on its way to the first.
pub open spec fn initial_network(program: Seq<i64>, phases: Seq<i64>) -> NetworkState {
    NetworkState {
        amps: Seq::new(
            phases.len(),
            |i: int| MachineState { input: seq![phases[i]], ..initial_state(program) },
        ),
        carried: Some(0),
    }
}

/// The network's output: the last output of the last amplifier in ring
/// order, 0 where there is no amplifier.
pub open spec fn network_output(n: NetworkState) -> i64 {
    if n.amps.len() == 0 {
        0
    } else {
        n.amps.last().last_output
    }
}

/// What running the network of `program` and `phases` for at most `fuel` passes gives.
pub open spec fn thruster_output(program: Seq<i64>, phases: Seq<i64>, fuel: nat) -> Result<
    i64,
    NetworkError,
> {
    match run_network(initial_network(program, phases), fuel) {
        Err(e) => Err(NetworkError::Fault(e)),
        Ok(None) => Err(NetworkError::PassLimit),
        Ok(Some(n)) => Ok(network_output(n)),
    }
}

/// One amplifier's turn, as `amp_turn` states it.
fn take_turn(c: &mut Computer, carried: Option<i64>) -> (r: Result<Option<i64>, VmError>)
    ensures
        match amp_turn(old(c)@, carried) {
            Ok((c2, out)) => r == Ok::<Option<i64>, VmError>(out) && final(c)@ == c2,
            Err(e) => r == Err::<Option<i64>, VmError>(e),
        },
{
    match carried {
        Some(v) => c.inject_input(v),
        None => {},
    }
    match c.exec_instruction() {
        Err(e) => Err(e),
        Ok(_) => Ok(c.read_output()),
    }
}

/// A pass keeps the number of amplifiers.
proof fn lemma_pass_keeps_len(amps: Seq<MachineState>, carried: Option<i64>, k: nat)
    ensures
        pass_from(amps, carried, k) matches Ok((a, _)) ==> a.len() == amps.len(),
    decreases amps.len() - k,
{
    if k < amps.len() {
        match amp_turn(amps[k as int], carried) {
            Err(_) => {},
            Ok((c, out)) => lemma_pass_keeps_len(amps.update(k as int, c), out, k + 1),
        }
    }
}

/// Processors in a ring, sharing one program.
pub struct AmplifierNetwork {
    amps: Vec<Computer>,
    carried: Option<i64>,
}

impl View for AmplifierNetwork {
    type V = NetworkState;

    closed spec fn view(&self) -> NetworkState {
        NetworkState { amps: self.amps@.map_values(|c: Computer| c@), carried: self.carried }
    }
}

impl AmplifierNetwork {
    /// One processor per phase setting, each running `program` with its
    /// phase as its first input; the seed 0 goes to the first.
    pub fn new(program: &Vec<i64>, phases: &Vec<i64>) -> (r: AmplifierNetwork)
        ensures
            r@ == initial_network(program@, phases@),
    {
        let mut amps: Vec<Computer> = Vec::new();
        let mut i: usize = 0;
        while i < phases.len()
            invariant
                i <= phases@.len(),
                amps@.len() == i,
                forall|j: int| 0 <= j < i ==> (#[trigger] amps@[j])@ == (MachineState {
                    input: seq![phases@[j]],
                    ..initial_state(program@)
                }),
            decreases phases@.len() - i,
        {
            let mut c = Computer::new(program.clone());
            assert(c@.mem =~= program@);
            c.inject_input(phases[i]);
            assert(c@.input =~= seq![phases@[i as int]]);
            amps.push(c);
            i = i + 1;
        }
        let r = AmplifierNetwork { amps, carried: Some(0) };
        assert(r@.amps =~= initial_network(program@, phases@).amps);
        r
    }

    /// One pass over the ring; says whether every amplifier has halted.
    pub fn run_pass(&mut self) -> (r: Result<bool, VmError>)
        ensures
            match pass_from(old(self)@.amps, old(self)@.carried, 0) {
                Ok((amps, carried)) => r == Ok::<bool, VmError>(all_halted(amps)) && final(self)@
                    == (NetworkState { amps, carried }),
                Err(e) => r == Err::<bool, VmError>(e),
            },
    {
        let ghost start = self@;
        let mut running = false;
        let mut k: usize = 0;
        while k < self.amps.len()
            invariant
                start == old(self)@,
                self@.amps.len() == start.amps.len(),
                k <= self@.amps.len(),
                pass_from(self@.amps, self@.carried, k as nat) == pass_from(
                    start.amps,
                    start.carried,
                    0,
                ),
                running <==> exists|j: int| 0 <= j < k && !(#[trigger] self@.amps[j]).halted,
            decreases self@.amps.len() - k,
        {
            let carried = self.carried;
            let ghost before = self@.amps;
            let out = match take_turn(&mut self.amps[k], carried) {
                Ok(out) => out,
                Err(e) => return Err(e),
            };
            self.carried = out;
            assert(self@.amps =~= before.update(k as int, self.amps@[k as int]@));
            let halted = self.amps[k].is_halted();
            assert(self@.amps[k as int].halted == halted);
            proof {
                assert forall|j: int| 0 <= j < k implies self@.amps[j] == before[j] by {}
                if !halted {
                    assert(!self@.amps[k as int].halted);
                }
            }
            if !halted {
                running = true;
            }
            k = k + 1;
        }
        proof {
            if running {
                let j = choose|j: int| 0 <= j < k && !(#[trigger] self@.amps[j]).halted;
                assert(!self@.amps[j].halted);
            }
        }
        Ok(!running)
    }

    /// Runs passes until a pass ends with every amplifier halted, for at most
    /// `max_passes` passes; `None` when the budget runs out first.
    pub fn run(&mut self, max_passes: u64) -> (r: Result<Option<i64>, VmError>)
        ensures
            match run_network(old(self)@, max_passes as nat) {
                Ok(Some(n)) => r == Ok::<Option<i64>, VmError>(Some(network_output(n)))
                    && final(self)@ == n,
                Ok(None) => r == Ok::<Option<i64>, VmError>(None),
                Err(e) => r == Err::<Option<i64>, VmError>(e),
            },
    {
        let ghost start = self@;
        let mut fuel: u64 = max_passes;
        while fuel > 0
            invariant
                start == old(self)@,
                self@.amps.len() == start.amps.len(),
                run_network(self@, fuel as nat) == run_network(start, max_passes as nat),
            decreases fuel,
        {
            let ghost before = self@;
            proof {
                lemma_pass_keeps_len(self@.amps, self@.carried, 0);
            }
            let done = match self.run_pass() {
                Ok(done) => done,
                Err(e) => return Err(e),
            };
            if done {
                return Ok(Some(self.output()));
            }
            fuel = fuel - 1;
        }
        Ok(None)
    }

    /// The last output of the last amplifier in ring order.
    pub fn output(&self) -> (r: i64)
        ensures
            r == network_output(self@),
    {
        let n = self.amps.len();
        if n == 0 {
            0
        } else {
            self.amps[n - 1].last_output()
        }
    }
}

/// Runs the network of `program` with `phases` for at most `max_passes`
/// passes and gives its output.
pub fn run_thruster_amps(program: &Vec<i64>, phases: &Vec<i64>, max_passes: u64) -> (r: Result<
    i64,
    NetworkError,
>)
    ensures
        r == thruster_output(program@, phases@, max_passes as nat),
{
    let mut network = AmplifierNetwork::new(program, phases);
    match network.run(max_passes) {
        Ok(Some(v)) => Ok(v),
        Ok(None) => Err(NetworkError::PassLimit),
        Err(e) => Err(NetworkError::Fault(e)),
    }
}

/// Whether `p` is an arrangement of `k` of the items: the items at `k`
/// distinct positions, in some order.
pub open spec fn is_arrangement(p: Seq<i64>, items: Seq<i64>, k: nat) -> bool {
    p.len() == k && exists|pos: Seq<int>|
        #![trigger pos.len()]
        pos.len() == k && (forall|i: int| 0 <= i < k ==> 0 <= #[trigger] pos[i] < items.len() && p[i] == items[pos[i]])
            && (forall|i: int, j: int| 0 <= i < j < k ==> #[trigger] pos[i] != #[trigger] pos[j])
}

/// The arrangements of `k` of the items, in the order that the permutation
/// adaptor produces them.
pub uninterp spec fn k_permutations(items: Seq<i64>, k: nat) -> Seq<Seq<i64>>;

/// Relies on `itertools::Itertools::permutations`: all arrangements of `k`
/// of the items, each one an arrangement (none when `k` exceeds their number).
#[verifier::external_body]
fn permutations_of(items: &Vec<i64>, k: usize) -> (r: Vec<Vec<i64>>)
    ensures
        r.deep_view() == k_permutations(items@, k as nat),
        forall|i: int| 0 <= i < r@.len() ==> is_arrangement(#[trigger] r@[i]@, items@, k as nat),
        forall|p: Seq<i64>|
            is_arrangement(p, items@, k as nat) ==> exists|i: int|
                0 <= i < r@.len() && #[trigger] r@[i]@ == p,
{
    items.iter().cloned().permutations(k).collect()
}

/// The best network output over `orders`, in order: the first order whose
/// output beats every earlier one and 0; `(0, [])` when none beats 0.
pub open spec fn best_output(program: Seq<i64>, orders: Seq<Seq<i64>>, fuel: nat) -> Result<
    (i64, Seq<i64>),
    NetworkError,
>
    decreases orders.len(),
{
    if orders.len() == 0 {
        Ok((0, Seq::empty()))
    } else {
        match best_output(program, orders.drop_last(), fuel) {
            Err(e) => Err(e),
            Ok((m, best)) => match thruster_output(program, orders.last(), fuel) {
                Err(e) => Err(e),
                Ok(o) => if o > m {
                    Ok((o, orders.last()))
                } else {
                    Ok((m, best))
                },
            },
        }
    }
}

/// The best output of the network of `program` over the phase orders in
/// `orders`, tried in turn.
pub fn best_phase_order(program: &Vec<i64>, orders: &Vec<Vec<i64>>, max_passes: u64) -> (r: Result<
    (i64, Vec<i64>),
    NetworkError,
>)
    ensures
        match best_output(program@, orders.deep_view(), max_passes as nat) {
            Ok((m, best)) => (r is Ok) && r->Ok_0.0 == m && r->Ok_0.1@ == best,
            Err(e) => r == Err::<(i64, Vec<i64>), NetworkError>(e),
        },
{
    let mut max_power: i64 = 0;
    let mut best_phases: Vec<i64> = Vec::new();
    let mut i: usize = 0;
    while i < orders.len()
        invariant
            i <= orders@.len(),
            best_output(program@, orders.deep_view().subrange(0, i as int), max_passes as nat)
                == Ok::<(i64, Seq<i64>), NetworkError>((max_power, best_phases@)),
        decreases orders@.len() - i,
    {
        let ghost prefix = orders.deep_view().subrange(0, i as int + 1);
        assert(prefix.drop_last() =~= orders.deep_view().subrange(0, i as int));
        assert(prefix.last() == orders@[i as int]@);
        let output = match run_thruster_amps(program, &orders[i], max_passes) {
            Ok(v) => v,
            Err(e) => {
                assert(orders.deep_view().subrange(0, orders@.len() as int) =~= orders.deep_view());
                proof {
                    lemma_best_output_error_stays(
                        program@,
                        orders.deep_view(),
                        max_passes as nat,
                        i as int + 1,
                    );
                }
                return Err(e);
            },
        };
        if output > max_power {
            max_power = output;
            best_phases = orders[i].clone();
            assert(best_phases@ =~= orders@[i as int]@);
        }
        i = i + 1;
    }
    assert(orders.deep_view().subrange(0, i as int) =~= orders.deep_view());
    Ok((max_power, best_phases))
}

/// An error in the first `n` orders is the error of the whole search.
proof fn lemma_best_output_error_stays(
    program: Seq<i64>,
    orders: Seq<Seq<i64>>,
    fuel: nat,
    n: int,
)
    requires
        0 <= n <= orders.len(),
        best_output(program, orders.subrange(0, n), fuel) is Err,
    ensures
        best_output(program, orders, fuel) == best_output(program, orders.subrange(0, n), fuel),
    decreases orders.len() - n,
{
    if n < orders.len() {
        let next = orders.subrange(0, n + 1);
        assert(next.drop_last() =~= orders.subrange(0, n));
        lemma_best_output_error_stays(program, orders, fuel, n + 1);
    } else {
        assert(orders.subrange(0, n) =~= orders);
    }
}

/// The best output over `orders` beats or equals every order's output, and
/// is 0 or the output of the order it names, which is one of them.
pub proof fn lemma_best_output_is_maximal(program: Seq<i64>, orders: Seq<Seq<i64>>, fuel: nat)
    ensures
        best_output(program, orders, fuel) matches Ok((m, best)) ==> {
            &&& m >= 0
            &&& forall|i: int|
                0 <= i < orders.len() ==> (thruster_output(program, #[trigger] orders[i], fuel) matches Ok(o)
                    ==> o <= m)
            &&& (m == 0 && best.len() == 0) || exists|i: int|
                0 <= i < orders.len() && #[trigger] orders[i] == best && thruster_output(
                    program,
                    best,
                    fuel,
                ) == Ok::<i64, NetworkError>(m)
        },
    decreases orders.len(),
{
    if orders.len() > 0 {
        let prev = orders.drop_last();
        lemma_best_output_is_maximal(program, prev, fuel);
        if let Ok((m, best)) = best_output(program, orders, fuel) {
            assert forall|i: int|
                0 <= i < orders.len() implies (thruster_output(program, #[trigger] orders[i], fuel) matches Ok(o)
                    ==> o <= m) by {
                if i < orders.len() - 1 {
                    assert(orders[i] == prev[i]);
                }
            }
            if !(m == 0 && best.len() == 0) {
                if let Ok((m0, best0)) = best_output(program, prev, fuel) {
                    if m0 == m && best0 == best && !(m0 == 0 && best0.len() == 0) {
                        let i = choose|i: int|
                            0 <= i < prev.len() && #[trigger] prev[i] == best0 && thruster_output(
                                program,
                                best0,
                                fuel,
                            ) == Ok::<i64, NetworkError>(m0);
                        assert(orders[i] == best);
                    } else {
                        assert(orders[orders.len() - 1] == best);
                    }
                }
            }
        }
    }
}

/// Searches every order of the phase settings in `phase_set` for the
/// highest network output.
pub fn maximise_thruster_power(program: &Vec<i64>, phase_set: &Vec<i64>, max_passes: u64) -> (r:
    Result<(i64, Vec<i64>), NetworkError>)
    ensures
        match best_output(
            program@,
            k_permutations(phase_set@, phase_set@.len()),
            max_passes as nat,
        ) {
            Ok((m, best)) => (r is Ok) && r->Ok_0.0 == m && r->Ok_0.1@ == best,
            Err(e) => r == Err::<(i64, Vec<i64>), NetworkError>(e),
        },
        r matches Ok((m, best)) ==> {
            &&& forall|p: Seq<i64>|
                is_arrangement(p, phase_set@, phase_set@.len()) ==> (#[trigger] thruster_output(
                    program@,
                    p,
                    max_passes as nat,
                ) matches Ok(o) ==> o <= m)
            &&& (m == 0 && best@.len() == 0) || (is_arrangement(
                best@,
                phase_set@,
                phase_set@.len(),
            ) && thruster_output(program@, best@, max_passes as nat) == Ok::<i64, NetworkError>(m))
        },
{
    let orders = permutations_of(phase_set, phase_set.len());
    proof {
        lemma_best_output_is_maximal(program@, orders.deep_view(), max_passes as nat);
    }
    let r = best_phase_order(program, &orders, max_passes);
    proof {
        if let Ok((m, ref best)) = r {
            assert forall|p: Seq<i64>|
                is_arrangement(p, phase_set@, phase_set@.len()) implies (#[trigger] thruster_output(
                program@,
                p,
                max_passes as nat,
            ) matches Ok(o) ==> o <= m) by {
                let i = choose|i: int| 0 <= i < orders@.len() && #[trigger] orders@[i]@ == p;
                assert(orders.deep_view()[i] == p);
            }
            if !(m == 0 && best@.len() == 0) {
                let i = choose|i: int|
                    0 <= i < orders.deep_view().len() && #[trigger] orders.deep_view()[i] == best@
                        && thruster_output(program@, best@, max_passes as nat) == Ok::<
                        i64,
                        NetworkError,
                    >(m);
                assert(orders.deep_view()[i] == orders@[i]@);
                assert(is_arrangement(orders@[i]@, phase_set@, phase_set@.len()));
            }
        }
    }
    r
}

} // verus!
