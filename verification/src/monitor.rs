//! The daemon's per-agent token-usage monitor: the decisions of its loop.
//!
//! For each watched agent instance hierarchy (AIH) the daemon loops on a
//! token-usage subscription; whenever the agent's `total_tokens` grows past
//! its `token_repeat` since the last injection, the loaded skill is fetched
//! again and re-enqueued as an `<arcanum>…</arcanum>` message. With no skill loaded
//! the baseline advances quietly, and the loop stops when the instance goes
//! inactive. The daemon performs the subscriptions, reads and writes; this
//! module decides, from each outcome, what comes next.

use vstd::prelude::*;

use crate::mcp::common::joined;
use crate::text::{chars_of, last_index_in, last_index_of};

verus! {

/// Idempotency key for the re-injected skill message: a later injection replaces
/// any still-queued earlier one for the same agent.
pub const ENQUEUE_KEY: &'static str = "arcanum-skill";

/// What one token-usage subscription gives back.
#[derive(Debug, Clone, Copy, PartialEq, Eq, Structural)]
pub enum SubscribeOutcome {
    /// A new snapshot of the agent's `total_tokens`.
    Snapshot(i64),
    /// The agent instance went inactive.
    Inactive,
    /// The executor failed or the stream ended with no item.
    Ended,
}

/// What the loop does next.
#[derive(Debug, Clone, Copy, PartialEq, Eq, Structural)]
pub enum MonitorStep {
    /// Leave the loop, deleting the agent's row first when `delete_row`.
    Stop { delete_row: bool },
    /// Fetch the loaded skill, enqueue it and store `total` as the baseline;
    /// when the fetch succeeds, report it with [`MonitorLoop::on_injected`].
    Inject { total: i64 },
    /// No skill is loaded: store `total` as the baseline, without injecting.
    Advance { total: i64 },
    /// A skill is loaded but usage has not grown past the threshold: keep
    /// accumulating.
    Hold,
}

/// The state of one agent's monitor loop.
#[derive(Debug, Clone, Copy, PartialEq, Eq, Structural)]
pub struct MonitorLoop {
    /// The injection baseline: `total_tokens` at the last injection (or quiet
    /// advance), if any.
    pub base: Option<i64>,
    /// The subscription cursor: the last snapshot seen, which the next
    /// subscription waits past, so the loop never busy-spins.
    pub seen: Option<i64>,
    /// Re-inject each time `total_tokens` grows past this many tokens.
    pub token_repeat: i64,
}

/// Whether usage `total` has grown past `token_repeat` since the baseline
/// (always, when there is no baseline yet).
pub open spec fn past_threshold(base: Option<i64>, total: i64, token_repeat: i64) -> bool {
    match base {
        None => true,
        Some(b) => total - b > token_repeat,
    }
}

/// The loop's next state and step, from state `s`, after `outcome`, with a
/// skill loaded or not.
pub open spec fn monitor_next(s: MonitorLoop, outcome: SubscribeOutcome, skill_loaded: bool) -> (
    MonitorLoop,
    MonitorStep,
) {
    match outcome {
        SubscribeOutcome::Inactive => (s, MonitorStep::Stop { delete_row: true }),
        SubscribeOutcome::Ended => (s, MonitorStep::Stop { delete_row: false }),
        SubscribeOutcome::Snapshot(total) => {
            let moved = MonitorLoop { seen: Some(total), ..s };
            if !skill_loaded {
                (MonitorLoop { base: Some(total), ..moved }, MonitorStep::Advance { total })
            } else if past_threshold(s.base, total, s.token_repeat) {
                (moved, MonitorStep::Inject { total })
            } else {
                (moved, MonitorStep::Hold)
            }
        },
    }
}

/// The state after a successful injection at usage `total`.
pub open spec fn monitor_injected(s: MonitorLoop, total: i64) -> MonitorLoop {
    MonitorLoop { base: Some(total), ..s }
}

impl MonitorLoop {
    /// A loop that starts from the persisted baseline, its cursor there too.
    pub fn new(baseline: Option<i64>, token_repeat: i64) -> (r: Self)
        ensures
            r.base == baseline,
            r.seen == baseline,
            r.token_repeat == token_repeat,
    {
        MonitorLoop { base: baseline, seen: baseline, token_repeat }
    }

    /// Take the outcome of one subscription, with a skill loaded or not (it is
    /// not read for an outcome other than a snapshot), and say what to do.
    pub fn on_outcome(&mut self, outcome: SubscribeOutcome, skill_loaded: bool) -> (r: MonitorStep)
        ensures
            (*final(self), r) == monitor_next(*old(self), outcome, skill_loaded),
    {
        match outcome {
            SubscribeOutcome::Inactive => MonitorStep::Stop { delete_row: true },
            SubscribeOutcome::Ended => MonitorStep::Stop { delete_row: false },
            SubscribeOutcome::Snapshot(total) => {
                let over = match self.base {
                    None => true,
                    Some(b) => (total as i128) - (b as i128) > (self.token_repeat as i128),
                };
                self.seen = Some(total);
                if !skill_loaded {
                    self.base = Some(total);
                    MonitorStep::Advance { total }
                } else if over {
                    MonitorStep::Inject { total }
                } else {
                    MonitorStep::Hold
                }
            },
        }
    }

    /// The skill was fetched and injected at usage `total`: that is the new
    /// baseline.
    pub fn on_injected(&mut self, total: i64)
        ensures
            *final(self) == monitor_injected(*old(self), total),
    {
        self.base = Some(total);
    }
}

/// Every snapshot moves the subscription cursor to it, whatever else happens,
/// so the next subscription waits for newer usage.
pub proof fn lemma_snapshot_moves_cursor(s: MonitorLoop, total: i64, skill_loaded: bool)
    ensures
        monitor_next(s, SubscribeOutcome::Snapshot(total), skill_loaded).0.seen == Some(total),
        monitor_next(s, SubscribeOutcome::Snapshot(total), skill_loaded).0.token_repeat
            == s.token_repeat,
{
}

/// A skill is injected only when one is loaded and usage has grown past the
/// threshold since the baseline; then it always is.
pub proof fn lemma_inject_exactly_past_threshold(s: MonitorLoop, total: i64, skill_loaded: bool)
    ensures
        monitor_next(s, SubscribeOutcome::Snapshot(total), skill_loaded).1 is Inject <==> (
        skill_loaded && past_threshold(s.base, total, s.token_repeat)),
{
}

/// With no skill loaded the baseline follows usage quietly: nothing is
/// injected and the baseline becomes the snapshot.
pub proof fn lemma_no_skill_advances_quietly(s: MonitorLoop, total: i64)
    ensures
        monitor_next(s, SubscribeOutcome::Snapshot(total), false).1 == (MonitorStep::Advance {
            total,
        }),
        monitor_next(s, SubscribeOutcome::Snapshot(total), false).0.base == Some(total),
{
}

/// Below the threshold with a skill loaded, usage keeps accumulating: the
/// baseline does not move.
pub proof fn lemma_below_threshold_keeps_baseline(s: MonitorLoop, total: i64)
    requires
        !past_threshold(s.base, total, s.token_repeat),
    ensures
        monitor_next(s, SubscribeOutcome::Snapshot(total), true).1 == MonitorStep::Hold,
        monitor_next(s, SubscribeOutcome::Snapshot(total), true).0.base == s.base,
{
}

/// After an injection at usage `injected`, the next snapshot `total` (a skill
/// still loaded) injects again exactly when it is more than `token_repeat`
/// tokens past `injected`.
pub proof fn lemma_injection_resets_threshold(s: MonitorLoop, injected: i64, total: i64)
    ensures
        monitor_next(monitor_injected(s, injected), SubscribeOutcome::Snapshot(total), true).1 is Inject
            <==> total - injected > s.token_repeat,
{
}

/// An inactive instance stops the loop and drops its row; a failed or ended
/// subscription stops it and keeps the row. Neither changes the state.
pub proof fn lemma_stop_outcomes(s: MonitorLoop, skill_loaded: bool)
    ensures
        monitor_next(s, SubscribeOutcome::Inactive, skill_loaded) == (s, MonitorStep::Stop {
            delete_row: true,
        }),
        monitor_next(s, SubscribeOutcome::Ended, skill_loaded) == (s, MonitorStep::Stop {
            delete_row: false,
        }),
{
}

/// One tick of a monitor loop as the daemon runs it: the subscription's
/// outcome, whether a skill was loaded, and whether fetching the skill for an
/// injection succeeded (then the daemon reports it with `on_injected`).
pub struct Tick {
    pub outcome: SubscribeOutcome,
    pub skill_loaded: bool,
    pub fetched: bool,
}

/// The state after one tick, and the usage at which it injected, if it did.
pub open spec fn tick_next(s: MonitorLoop, t: Tick) -> (MonitorLoop, Option<i64>) {
    let (next, step) = monitor_next(s, t.outcome, t.skill_loaded);
    match step {
        MonitorStep::Inject { total } => if t.fetched {
            (monitor_injected(next, total), Some(total))
        } else {
            (next, None)
        },
        _ => (next, None),
    }
}

/// The state after a run of ticks from `s`.
pub open spec fn run_state(s: MonitorLoop, ticks: Seq<Tick>) -> MonitorLoop
    decreases ticks.len(),
{
    if ticks.len() == 0 {
        s
    } else {
        tick_next(run_state(s, ticks.drop_last()), ticks.last()).0
    }
}

/// The usages at which a run of ticks from `s` injected, in order.
pub open spec fn run_injections(s: MonitorLoop, ticks: Seq<Tick>) -> Seq<i64>
    decreases ticks.len(),
{
    if ticks.len() == 0 {
        Seq::empty()
    } else {
        let init = run_injections(s, ticks.drop_last());
        match tick_next(run_state(s, ticks.drop_last()), ticks.last()).1 {
            Some(t) => init.push(t),
            None => init,
        }
    }
}

/// The usage a snapshot outcome reports.
pub open spec fn snapshot_total(o: SubscribeOutcome) -> Option<i64> {
    match o {
        SubscribeOutcome::Snapshot(t) => Some(t),
        _ => None,
    }
}

/// Whether the snapshots of a run never go down.
pub open spec fn snapshots_nondecreasing(ticks: Seq<Tick>) -> bool {
    forall|i: int, j: int|
        #![trigger snapshot_total(ticks[i].outcome), snapshot_total(ticks[j].outcome)]
        0 <= i < j < ticks.len() && snapshot_total(ticks[i].outcome) is Some && snapshot_total(
            ticks[j].outcome,
        ) is Some ==> snapshot_total(ticks[i].outcome)->0 <= snapshot_total(ticks[j].outcome)->0
}

proof fn lemma_run_invariant(s: MonitorLoop, ticks: Seq<Tick>)
    requires
        snapshots_nondecreasing(ticks),
    ensures
        run_state(s, ticks).token_repeat == s.token_repeat,
        forall|i: int|
            0 <= i < run_injections(s, ticks).len() - 1 ==> #[trigger] run_injections(s, ticks)[i
                + 1] - run_injections(s, ticks)[i] > s.token_repeat,
        run_injections(s, ticks).len() > 0 ==> {
            &&& run_state(s, ticks).base matches Some(b)
            &&& b >= run_injections(s, ticks).last()
            &&& exists|j: int|
                0 <= j < ticks.len() && #[trigger] snapshot_total(ticks[j].outcome) == Some(b)
        },
    decreases ticks.len(),
{
    if ticks.len() > 0 {
        let init = ticks.drop_last();
        assert(snapshots_nondecreasing(init)) by {
            assert forall|i: int, j: int|
                0 <= i < j < init.len() && snapshot_total(init[i].outcome) is Some
                    && snapshot_total(init[j].outcome) is Some implies snapshot_total(
                init[i].outcome,
            )->0 <= snapshot_total(init[j].outcome)->0 by {
                assert(init[i] == ticks[i] && init[j] == ticks[j]);
            }
        }
        lemma_run_invariant(s, init);
        let prev = run_state(s, init);
        let inj = run_injections(s, init);
        let t = ticks.last();
        let n = ticks.len() - 1;
        assert(t == ticks[n]);
        if inj.len() > 0 {
            let b = prev.base->0;
            let j = choose|j: int|
                0 <= j < init.len() && #[trigger] snapshot_total(init[j].outcome) == Some(b);
            assert(ticks[j] == init[j]);
            match t.outcome {
                SubscribeOutcome::Snapshot(total) => {
                    assert(snapshot_total(ticks[j].outcome) == Some(b));
                    assert(snapshot_total(ticks[n].outcome) == Some(total));
                    assert(b <= total);
                },
                _ => {},
            }
            assert forall|k: int| 0 <= k < init.len() && #[trigger] snapshot_total(
                init[k].outcome,
            ) == Some(b) implies 0 <= k < ticks.len() && snapshot_total(ticks[k].outcome) == Some(
                b,
            ) by {
                assert(ticks[k] == init[k]);
            }
        }
        match t.outcome {
            SubscribeOutcome::Snapshot(total) => {
                assert(snapshot_total(ticks[n].outcome) == Some(total));
            },
            _ => {},
        }
        let all = run_injections(s, ticks);
        assert forall|i: int| 0 <= i < all.len() - 1 implies #[trigger] all[i + 1] - all[i]
            > s.token_repeat by {
            if i + 1 < inj.len() {
                assert(all[i + 1] == inj[i + 1] && all[i] == inj[i]);
            } else {
                assert(all[i] == inj.last());
            }
        }
    }
}

/// Over any run whose snapshots never go down, consecutive injections are
/// more than `token_repeat` tokens apart, and after each injection the
/// baseline is the usage it injected at.
pub proof fn lemma_injections_spaced(s: MonitorLoop, ticks: Seq<Tick>)
    requires
        snapshots_nondecreasing(ticks),
    ensures
        forall|i: int|
            0 <= i < run_injections(s, ticks).len() - 1 ==> #[trigger] run_injections(s, ticks)[i
                + 1] - run_injections(s, ticks)[i] > s.token_repeat,
        forall|k: int|
            #![trigger run_state(s, ticks.take(k + 1))]
            0 <= k < ticks.len() && tick_next(run_state(s, ticks.take(k)), ticks[k]).1 is Some
                ==> run_state(s, ticks.take(k + 1)).base == tick_next(
                run_state(s, ticks.take(k)),
                ticks[k],
            ).1,
{
    lemma_run_invariant(s, ticks);
    assert forall|k: int|
        #![trigger run_state(s, ticks.take(k + 1))]
        0 <= k < ticks.len() && tick_next(run_state(s, ticks.take(k)), ticks[k]).1 is Some implies run_state(
            s,
            ticks.take(k + 1),
        ).base == tick_next(run_state(s, ticks.take(k)), ticks[k]).1 by {
        assert(ticks.take(k + 1).drop_last() =~= ticks.take(k));
        assert(ticks.take(k + 1).last() == ticks[k]);
    }
}

/// Whether the begin / reconnect path resumes monitoring: only when no loop
/// runs for the agent yet and a baseline already exists.
pub fn should_resume(already_running: bool, baseline: Option<i64>) -> (r: bool)
    ensures
        r == (!already_running && baseline is Some),
{
    !already_running && baseline.is_some()
}

/// Where an injection is addressed: the agent instance hierarchy `aih` split
/// at its last `/` into the parent hierarchy and the instance; no parent when
/// `aih` has no `/`.
pub open spec fn enqueue_target_of(aih: Seq<char>) -> (Option<Seq<char>>, Seq<char>) {
    match last_index_of(aih, '/') {
        Some(k) => (Some(aih.take(k)), aih.skip(k + 1)),
        None => (None, aih),
    }
}

/// The parent hierarchy (if any) and the agent instance that `aih` names.
pub fn enqueue_target(aih: &str) -> (r: (Option<String>, String))
    ensures
        match r.0 {
            Some(p) => enqueue_target_of(aih@) == (Some(p@), r.1@),
            None => enqueue_target_of(aih@) == (None::<Seq<char>>, r.1@),
        },
{
    let cs = chars_of(aih);
    let n = cs.len();
    assert(cs@.subrange(0, n as int) =~= aih@);
    match last_index_in(&cs, 0, n, '/') {
        Some(k) => {
            let parent = aih.substring_char(0, k).to_owned();
            let instance = aih.substring_char(k + 1, n).to_owned();
            assert(aih@.take(k as int) =~= aih@.subrange(0, k as int));
            assert(aih@.skip(k + 1) =~= aih@.subrange(k + 1, n as int));
            (Some(parent), instance)
        },
        None => (None, aih.to_owned()),
    }
}

/// Splitting loses nothing: the parent, a `/` and the instance give back the
/// hierarchy, and the instance holds no `/`.
pub proof fn lemma_enqueue_target_rejoins(aih: Seq<char>)
    ensures
        match enqueue_target_of(aih).0 {
            Some(p) => p + seq!['/'] + enqueue_target_of(aih).1 == aih,
            None => enqueue_target_of(aih).1 == aih,
        },
        forall|j: int|
            0 <= j < enqueue_target_of(aih).1.len() ==> #[trigger] enqueue_target_of(aih).1[j]
                != '/',
{
    crate::text::lemma_last_index_of_bounds(aih, '/');
    match last_index_of(aih, '/') {
        Some(k) => {
            assert(aih.take(k) + seq!['/'] + aih.skip(k + 1) =~= aih);
        },
        None => {},
    }
}

/// The message that injects skill `content`.
pub open spec fn skill_message_text(content: Seq<char>) -> Seq<char> {
    "<arcanum>\n"@ + content + "\n</arcanum>"@
}

/// The injected message carries the whole content: exactly the ten
/// characters `<arcanum>` and a line feed, then every character of the
/// content, then a line feed and `</arcanum>`; cutting those off gives the
/// content back.
pub proof fn lemma_skill_message_wraps_whole_content(content: Seq<char>)
    ensures
        skill_message_text(content) == seq!['<', 'a', 'r', 'c', 'a', 'n', 'u', 'm', '>', '\n']
            + content + seq!['\n', '<', '/', 'a', 'r', 'c', 'a', 'n', 'u', 'm', '>'],
        skill_message_text(content).len() == content.len() + 21,
        skill_message_text(content).subrange(10, content.len() + 10int) == content,
{
    reveal_strlit("<arcanum>\n");
    reveal_strlit("\n</arcanum>");
    assert("<arcanum>\n"@ =~= seq!['<', 'a', 'r', 'c', 'a', 'n', 'u', 'm', '>', '\n']);
    assert("\n</arcanum>"@ =~= seq!['\n', '<', '/', 'a', 'r', 'c', 'a', 'n', 'u', 'm', '>']);
    assert(skill_message_text(content).subrange(10, content.len() + 10int) =~= content);
}

/// `content` as a `<arcanum>…</arcanum>` message.
pub fn skill_message(content: &str) -> (r: String)
    ensures
        r@ == skill_message_text(content@),
{
    let mut r = joined("<arcanum>\n", content);
    r.append("\n</arcanum>");
    r
}

} // verus!
