//! Gate between releases of device memory and the exit of the process.
//!
//! Once the driver's own teardown has begun, a release must not reach it. So
//! every release counts itself in before it looks at the exit flag, and the
//! exit hook raises the flag before it looks at the count. Either the release
//! sees the flag and backs out, or the hook sees the release and waits for it.
//! The count is no lock: releases may nest. Like the atomic it stands for, it
//! goes round at the end of its range.

use vstd::prelude::*;

verus! {

/// How long the exit hook waits for releases in progress, in milliseconds.
/// The bound keeps a stuck driver call from hanging the exit.
pub const EXIT_WAIT_MS: u64 = 10000;

/// Pause between two looks at the count, in milliseconds.
pub const EXIT_POLL_MS: u64 = 1;

/// The exit flag and the count of releases in progress.
#[derive(Debug)]
pub struct ExitGate {
    exiting: bool,
    in_flight: usize,
}

pub struct GateView {
    pub exiting: bool,
    pub in_flight: nat,
}

/// A release that was let in. It is held for the whole release and handed back
/// with [`ExitGate::end_release`].
#[derive(Debug)]
pub struct ReleaseGuard {
    counted: bool,
}

/// What the exit hook finds when it looks at the count.
#[derive(Clone, Copy, PartialEq, Eq, Structural, Debug)]
pub enum ExitWait {
    /// Every release is over.
    Finished,
    /// Releases are in progress; look again.
    Waiting,
    /// Releases are in progress and the time is up.
    GaveUp,
}

impl View for ExitGate {
    type V = GateView;

    closed spec fn view(&self) -> GateView {
        GateView { exiting: self.exiting, in_flight: self.in_flight as nat }
    }
}

impl GateView {
    /// A release has counted itself in. A full count starts over.
    pub open spec fn counted_in(self) -> GateView {
        GateView {
            in_flight: if self.in_flight == usize::MAX {
                0
            } else {
                self.in_flight + 1
            },
            ..self
        }
    }

    /// A release has counted itself out.
    pub open spec fn counted_out(self) -> GateView {
        GateView {
            in_flight: if self.in_flight == 0 {
                usize::MAX as nat
            } else {
                (self.in_flight - 1) as nat
            },
            ..self
        }
    }

    /// What [`ExitGate::begin_release`] leaves: a release that is let in is
    /// counted, one that is turned away is not.
    pub open spec fn begun(self) -> GateView {
        if self.exiting {
            self
        } else {
            self.counted_in()
        }
    }

    /// The exit has begun.
    pub open spec fn raised(self) -> GateView {
        GateView { exiting: true, ..self }
    }
}

impl ExitGate {
    pub fn new() -> (res: Self)
        ensures
            res@ == (GateView { exiting: false, in_flight: 0 }),
    {
        ExitGate { exiting: false, in_flight: 0 }
    }

    fn count_in(&mut self)
        ensures
            final(self)@ == old(self)@.counted_in(),
    {
        self.in_flight = self.in_flight.wrapping_add(1);
    }

    fn count_out(&mut self)
        ensures
            final(self)@ == old(self)@.counted_out(),
    {
        self.in_flight = self.in_flight.wrapping_sub(1);
    }

    /// Lets a release in, or `None` once the exit has begun. A release that is
    /// turned away has counted itself back out.
    pub fn begin_release(&mut self) -> (res: Option<ReleaseGuard>)
        ensures
            res is Some <==> !old(self)@.exiting,
            final(self)@ == old(self)@.begun(),
    {
        self.count_in();
        if self.exiting {
            self.count_out();
            return None;
        }
        Some(ReleaseGuard { counted: true })
    }

    /// Takes note that a release is over.
    pub fn end_release(&mut self, guard: ReleaseGuard)
        ensures
            final(self)@ == old(self)@.counted_out(),
    {
        self.count_out();
    }

    /// Raises the flag and looks at the count once; `expired` says that the
    /// waiting time is up. The exit hook calls this until it need not wait.
    pub fn mark_exiting(&mut self, expired: bool) -> (res: ExitWait)
        ensures
            final(self)@ == old(self)@.raised(),
            res == (if old(self)@.in_flight == 0 {
                ExitWait::Finished
            } else if expired {
                ExitWait::GaveUp
            } else {
                ExitWait::Waiting
            }),
    {
        self.exiting = true;
        if self.in_flight == 0 {
            ExitWait::Finished
        } else if expired {
            ExitWait::GaveUp
        } else {
            ExitWait::Waiting
        }
    }

    /// Releases in progress.
    pub fn in_flight(&self) -> (res: usize)
        ensures
            res == self@.in_flight,
    {
        self.in_flight
    }

    pub fn is_exiting(&self) -> (res: bool)
        ensures
            res == self@.exiting,
    {
        self.exiting
    }
}

/// Lets a release through `gate`, or `None` once the exit has begun: leak instead.
pub fn begin_release(gate: &mut ExitGate) -> (res: Option<ReleaseGuard>)
    ensures
        res is Some <==> !old(gate)@.exiting,
        final(gate)@ == old(gate)@.begun(),
{
    gate.begin_release()
}

/// True once the exit has begun.
pub fn process_exiting(gate: &ExitGate) -> (res: bool)
    ensures
        res == gate@.exiting,
{
    gate.is_exiting()
}

/// What a thread may call, one at a time.
pub enum Call {
    /// [`ExitGate::begin_release`].
    Begin,
    /// [`ExitGate::end_release`].
    End,
    /// [`ExitGate::mark_exiting`].
    Mark,
}

/// Flag and count after some calls.
pub open spec fn after_calls(g: GateView, calls: Seq<Call>) -> GateView
    decreases calls.len(),
{
    if calls.len() == 0 {
        g
    } else {
        let was = after_calls(g, calls.drop_last());
        match calls.last() {
            Call::Begin => was.begun(),
            Call::End => was.counted_out(),
            Call::Mark => was.raised(),
        }
    }
}

/// Releases that were let in and are not over, after some calls: each `Begin`
/// before the first `Mark` lets one in, each `End` ends one.
pub open spec fn open_releases(exiting: bool, calls: Seq<Call>) -> int
    decreases calls.len(),
{
    if calls.len() == 0 {
        0
    } else {
        open_releases(exiting, calls.drop_last()) + match calls.last() {
            Call::Begin => if exiting || marked(calls.drop_last()) {
                0int
            } else {
                1
            },
            Call::End => -1,
            Call::Mark => 0,
        }
    }
}

pub open spec fn marked(calls: Seq<Call>) -> bool {
    exists|i: int| 0 <= i < calls.len() && (#[trigger] calls[i]) is Mark
}

/// Law: ending a release undoes its beginning, whatever the count was.
pub proof fn law_ending_undoes_beginning(g: GateView)
    requires
        g.in_flight <= usize::MAX,
    ensures
        g.counted_in().counted_out() == g,
        g.counted_out().counted_in() == g,
{
}

/// Law: the exit is for good. Whatever is called after the flag was raised, it
/// stays up, so that no release is let in any more.
pub proof fn law_exit_is_for_good(g: GateView, calls: Seq<Call>)
    requires
        g.exiting,
    ensures
        after_calls(g, calls).exiting,
    decreases calls.len(),
{
    if calls.len() > 0 {
        law_exit_is_for_good(g, calls.drop_last());
    }
}

/// Law: after any calls the flag tells whether the exit has begun, and the
/// count is that of the releases let in and not over, as long as no more end
/// than were let in and the count can hold them.
pub proof fn law_count_is_that_of_open_releases(g: GateView, calls: Seq<Call>)
    requires
        forall|n: int|
            0 <= n <= calls.len() ==> 0 <= g.in_flight + open_releases(g.exiting, #[trigger] calls.take(n)) <= usize::MAX,
    ensures
        after_calls(g, calls).exiting == (g.exiting || marked(calls)),
        after_calls(g, calls).in_flight == g.in_flight + open_releases(g.exiting, calls),
    decreases calls.len(),
{
    assert(calls.take(calls.len() as int) =~= calls);
    if calls.len() > 0 {
        let most = calls.drop_last();
        assert(calls.take(calls.len() - 1) =~= most);
        assert forall|n: int| 0 <= n <= most.len() implies 0 <= g.in_flight + open_releases(
            g.exiting,
            #[trigger] most.take(n),
        ) <= usize::MAX by {
            assert(most.take(n) =~= calls.take(n));
        }
        law_count_is_that_of_open_releases(g, most);
        if marked(most) {
            let i = choose|i: int| 0 <= i < most.len() && (#[trigger] most[i]) is Mark;
            assert(calls[i] is Mark);
        }
        if marked(calls) && !(calls.last() is Mark) {
            let i = choose|i: int| 0 <= i < calls.len() && (#[trigger] calls[i]) is Mark;
            assert(most[i] is Mark);
        }
        if calls.last() is Mark {
            assert(calls[calls.len() - 1] is Mark);
        }
    }
}

/// How far a release has come. Threads interleave between these points, and a
/// release nested in another is one more of them.
pub enum Phase {
    /// Not begun.
    Idle,
    /// Counted in, the flag not read yet.
    Entered,
    /// Read a lowered flag: it may call the driver.
    Releasing,
    /// Read a raised flag: it will count itself out and leak.
    BackingOut,
    /// Counted out.
    Over,
}

/// How far the exit hook has come.
pub enum Hook {
    NotBegun,
    /// The flag is raised, the count not seen at zero yet.
    Waiting,
    /// The count was seen at zero: the driver's teardown may run.
    Finished,
}

/// All releases of a process, its gate and its exit hook.
pub struct World {
    pub gate: GateView,
    pub releases: Seq<Phase>,
    pub hook: Hook,
}

/// A single step of one thread or of the hook, each an atomic access.
pub enum Step {
    Enter(int),
    ReadFlag(int),
    CountBackOut(int),
    End(int),
    Raise,
    ReadCount,
}

pub open spec fn with_phase(w: World, i: int, gate: GateView, phase: Phase) -> World {
    World { gate, releases: w.releases.update(i, phase), ..w }
}

/// Whether `step` leads from `a` to `b`.
pub open spec fn leads(a: World, step: Step, b: World) -> bool {
    match step {
        Step::Enter(i) => {
            &&& 0 <= i < a.releases.len()
            &&& a.releases[i] is Idle
            &&& b == with_phase(a, i, a.gate.counted_in(), Phase::Entered)
        },
        Step::ReadFlag(i) => {
            &&& 0 <= i < a.releases.len()
            &&& a.releases[i] is Entered
            &&& b == with_phase(a, i, a.gate, if a.gate.exiting {
                Phase::BackingOut
            } else {
                Phase::Releasing
            })
        },
        Step::CountBackOut(i) => {
            &&& 0 <= i < a.releases.len()
            &&& a.releases[i] is BackingOut
            &&& b == with_phase(a, i, a.gate.counted_out(), Phase::Over)
        },
        Step::End(i) => {
            &&& 0 <= i < a.releases.len()
            &&& a.releases[i] is Releasing
            &&& b == with_phase(a, i, a.gate.counted_out(), Phase::Over)
        },
        Step::Raise => {
            &&& a.hook is NotBegun
            &&& b == (World { gate: a.gate.raised(), hook: Hook::Waiting, ..a })
        },
        Step::ReadCount => {
            &&& a.hook is Waiting
            &&& b == (if a.gate.in_flight == 0 {
                World { hook: Hook::Finished, ..a }
            } else {
                a
            })
        },
    }
}

pub open spec fn is_counted(p: Phase) -> bool {
    p is Entered || p is Releasing || p is BackingOut
}

/// Releases that are counted in.
pub open spec fn counted(r: Seq<Phase>) -> nat
    decreases r.len(),
{
    if r.len() == 0 {
        0
    } else {
        counted(r.drop_last()) + if is_counted(r.last()) {
            1nat
        } else {
            0nat
        }
    }
}

/// What every interleaving keeps: the count is that of the releases between
/// counting in and out; the flag is up once the hook has begun; and once the
/// hook has finished waiting nobody is releasing.
pub open spec fn sound(w: World) -> bool {
    &&& w.releases.len() <= usize::MAX
    &&& w.gate.in_flight == counted(w.releases)
    &&& w.gate.exiting <==> !(w.hook is NotBegun)
    &&& w.hook is Finished ==> forall|i: int| 0 <= i < w.releases.len() ==> !((#[trigger] w.releases[i]) is Releasing)
}

pub open spec fn initial(n: nat) -> World {
    World {
        gate: GateView { exiting: false, in_flight: 0 },
        releases: Seq::new(n, |i: int| Phase::Idle),
        hook: Hook::NotBegun,
    }
}

proof fn lemma_counted_update(r: Seq<Phase>, i: int, p: Phase)
    requires
        0 <= i < r.len(),
    ensures
        counted(r.update(i, p)) == counted(r) - (if is_counted(r[i]) {
            1int
        } else {
            0
        }) + (if is_counted(p) {
            1int
        } else {
            0
        }),
    decreases r.len(),
{
    if i < r.len() - 1 {
        lemma_counted_update(r.drop_last(), i, p);
        assert(r.update(i, p).drop_last() =~= r.drop_last().update(i, p));
    } else {
        assert(r.update(i, p).drop_last() =~= r.drop_last());
    }
}

proof fn lemma_counted_bound(r: Seq<Phase>)
    ensures
        counted(r) <= r.len(),
    decreases r.len(),
{
    if r.len() > 0 {
        lemma_counted_bound(r.drop_last());
    }
}

proof fn lemma_none_counted(r: Seq<Phase>, i: int)
    requires
        counted(r) == 0,
        0 <= i < r.len(),
    ensures
        !is_counted(r[i]),
    decreases r.len(),
{
    if i < r.len() - 1 {
        lemma_none_counted(r.drop_last(), i);
    }
}

proof fn lemma_idle(n: nat)
    ensures
        counted(initial(n).releases) == 0,
    decreases n,
{
    if n > 0 {
        lemma_idle((n - 1) as nat);
        assert(initial(n).releases.drop_last() =~= initial((n - 1) as nat).releases);
    }
}

/// Law: every step keeps the count and the flag sound.
pub proof fn law_steps_keep_the_gate_sound(a: World, step: Step, b: World)
    requires
        sound(a),
        leads(a, step, b),
    ensures
        sound(b),
{
    match step {
        Step::Enter(i) => {
            lemma_counted_update(a.releases, i, Phase::Entered);
            lemma_counted_bound(b.releases);
        },
        Step::ReadFlag(i) => {
            lemma_counted_update(a.releases, i, b.releases[i]);
        },
        Step::CountBackOut(i) => {
            lemma_counted_update(a.releases, i, Phase::Over);
            lemma_counted_bound(b.releases);
        },
        Step::End(i) => {
            lemma_counted_update(a.releases, i, Phase::Over);
            lemma_counted_bound(b.releases);
        },
        Step::Raise => {},
        Step::ReadCount => {
            if a.gate.in_flight == 0 {
                assert forall|i: int| 0 <= i < b.releases.len() implies !((#[trigger] b.releases[i]) is Releasing) by {
                    lemma_none_counted(a.releases, i);
                }
            }
        },
    }
}

/// Law: in every interleaving of the exit with as many releases as the count
/// can hold, once the hook has finished waiting no release is running, and none
/// ever runs again; and while one runs, the hook does not finish.
pub proof fn law_no_release_runs_after_the_hook(n: nat, worlds: Seq<World>, steps: Seq<Step>, at: int, i: int)
    requires
        n <= usize::MAX,
        worlds.len() == steps.len() + 1,
        worlds[0] == initial(n),
        forall|j: int| 0 <= j < steps.len() ==> leads(#[trigger] worlds[j], steps[j], worlds[j + 1]),
        0 <= at < worlds.len(),
        0 <= i < worlds[at].releases.len(),
    ensures
        sound(worlds[at]),
        worlds[at].hook is Finished ==> !(worlds[at].releases[i] is Releasing),
        worlds[at].hook is Finished ==> worlds.last().hook is Finished,
    decreases at,
{
    lemma_sound_at(n, worlds, steps, at);
    if worlds[at].hook is Finished {
        lemma_finished_stays(worlds, steps, at, worlds.len() - 1);
    }
}

proof fn lemma_sound_at(n: nat, worlds: Seq<World>, steps: Seq<Step>, at: int)
    requires
        n <= usize::MAX,
        worlds.len() == steps.len() + 1,
        worlds[0] == initial(n),
        forall|j: int| 0 <= j < steps.len() ==> leads(#[trigger] worlds[j], steps[j], worlds[j + 1]),
        0 <= at < worlds.len(),
    ensures
        sound(worlds[at]),
    decreases at,
{
    if at == 0 {
        lemma_idle(n);
    } else {
        lemma_sound_at(n, worlds, steps, at - 1);
        assert(leads(worlds[at - 1], steps[at - 1], worlds[at - 1 + 1]));
        law_steps_keep_the_gate_sound(worlds[at - 1], steps[at - 1], worlds[at]);
    }
}

proof fn lemma_finished_stays(worlds: Seq<World>, steps: Seq<Step>, from: int, to: int)
    requires
        worlds.len() == steps.len() + 1,
        forall|j: int| 0 <= j < steps.len() ==> leads(#[trigger] worlds[j], steps[j], worlds[j + 1]),
        0 <= from <= to < worlds.len(),
        worlds[from].hook is Finished,
    ensures
        worlds[to].hook is Finished,
    decreases to - from,
{
    if from < to {
        lemma_finished_stays(worlds, steps, from, to - 1);
        assert(leads(worlds[to - 1], steps[to - 1], worlds[to - 1 + 1]));
    }
}

/// Law: letting a release in is to count in and read the flag, and to count
/// out again where it is up, in these very steps.
pub proof fn law_operations_are_steps(w: World, i: int)
    requires
        sound(w),
        0 <= i < w.releases.len(),
        w.releases[i] is Idle,
    ensures
        ({
            let entered = with_phase(w, i, w.gate.counted_in(), Phase::Entered);
            let read = with_phase(entered, i, entered.gate, if w.gate.exiting {
                Phase::BackingOut
            } else {
                Phase::Releasing
            });
            let out = with_phase(read, i, read.gate.counted_out(), Phase::Over);
            &&& leads(w, Step::Enter(i), entered)
            &&& leads(entered, Step::ReadFlag(i), read)
            &&& !w.gate.exiting ==> read.gate == w.gate.counted_in()
            &&& w.gate.exiting ==> leads(read, Step::CountBackOut(i), out) && out.gate == w.gate
        }),
{
}

/// Law: the count goes up and down by one, round the end of its range.
pub proof fn law_counting_goes_round(g: GateView)
    requires
        g.in_flight <= usize::MAX,
    ensures
        g.counted_in().in_flight == (g.in_flight + 1int) % (usize::MAX + 1),
        g.counted_out().in_flight == (g.in_flight - 1int) % (usize::MAX + 1),
        g.counted_in().exiting == g.exiting,
        g.counted_out().exiting == g.exiting,
        g.raised().exiting,
        g.raised().in_flight == g.in_flight,
        g.begun() == (if g.exiting {
            g
        } else {
            g.counted_in()
        }),
{
    let m = usize::MAX + 1;
    if g.in_flight == 0 {
        vstd::arithmetic::div_mod::lemma_fundamental_div_mod_converse(-1, m, -1, m - 1);
    } else {
        vstd::arithmetic::div_mod::lemma_small_mod((g.in_flight - 1) as nat, m as nat);
    }
    if g.in_flight == usize::MAX {
        vstd::arithmetic::div_mod::lemma_mod_self_0(m);
    } else {
        vstd::arithmetic::div_mod::lemma_small_mod((g.in_flight + 1) as nat, m as nat);
    }
}

/// Law: the hook waits ten seconds at most, looking every millisecond.
pub proof fn law_hook_waits_ten_seconds(seconds: int)
    ensures
        1000 * seconds <= EXIT_WAIT_MS <==> seconds <= 10,
        EXIT_WAIT_MS == 10000 * EXIT_POLL_MS,
{
}

/// Law: whenever the hook looks, the flag is up afterwards and the count as it
/// was; it is told that releases are over exactly when none is in progress, and
/// to give up only when its time is up.
pub proof fn law_hook_is_told_what_it_finds(gate: &mut ExitGate, expired: bool, told: ExitWait)
    requires
        call_ensures(ExitGate::mark_exiting, (gate, expired), told),
    ensures
        final(gate)@.exiting,
        final(gate)@.in_flight == old(gate)@.in_flight,
        told is Finished <==> old(gate)@.in_flight == 0,
        told is GaveUp <==> old(gate)@.in_flight > 0 && expired,
{
}

/// Law: whenever a release asks, it is let in exactly before the exit has begun,
/// and the count goes up by one, round its range, exactly then; a release that is
/// over takes one off it.
pub proof fn law_releases_are_let_in_before_the_exit(
    gate: &mut ExitGate,
    guard: Option<ReleaseGuard>,
    later: &mut ExitGate,
    over: ReleaseGuard,
)
    requires
        call_ensures(ExitGate::begin_release, (gate,), guard),
        call_ensures(ExitGate::end_release, (later, over), ()),
        old(gate)@.in_flight <= usize::MAX,
        old(later)@.in_flight <= usize::MAX,
    ensures
        guard is Some <==> !old(gate)@.exiting,
        final(gate)@.exiting == old(gate)@.exiting,
        guard is None ==> final(gate)@.in_flight == old(gate)@.in_flight,
        guard is Some ==> final(gate)@.in_flight == (old(gate)@.in_flight + 1int) % (usize::MAX + 1),
        final(later)@.exiting == old(later)@.exiting,
        final(later)@.in_flight == (old(later)@.in_flight - 1int) % (usize::MAX + 1),
{
    law_counting_goes_round(old(gate)@);
    law_counting_goes_round(old(later)@);
}

} // verus!
