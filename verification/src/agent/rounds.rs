//! How the context is kept within its budget: older outputs are cleared first,
//! and turns are summarized, round by round, where that is not enough.
use crate::agent::compaction;
use crate::agent::compaction::CompactStats;
use crate::agent::event;
use crate::agent::event::AgentEvent;
use crate::agent::event::EventView;
use crate::agent::history;
use crate::agent::message;
use crate::agent::state;
use crate::agent::state::Agent;
use crate::memory::record::MemoryPointer;
use crate::provider::models_dev::ModelLimit;
use crate::text;
use vstd::prelude::*;

verus! {

/// A compaction that is under way. Before each round the messages that it is
/// to summarize are archived.
#[derive(Debug, Clone, Copy, PartialEq, Eq)]
pub struct Compaction {
    pub budget: usize,
    pub keep_turns: usize,
    pub stats: CompactStats,
    pub finished: bool,
}

/// What a look at the context came to, where it was near its budget.
#[derive(Debug, Clone, Copy, PartialEq, Eq)]
pub struct ContextCheck {
    pub before_tokens: usize,
    pub pruned_tool_outputs: usize,
    pub must_compact: bool,
}

/// Whether the context is near its budget.
pub open spec fn is_near(agent: &Agent, limit: Option<ModelLimit>) -> bool {
    agent.used() >= state::threshold(state::budget(limit, agent.fallback_context_tokens))
}

pub open spec fn less(a: usize, b: usize) -> usize {
    if a > b {
        (a - b) as usize
    } else {
        0
    }
}

/// A compaction after one round.
pub open spec fn after_round(compaction: Compaction, round: CompactStats) -> Compaction {
    let finished = round.freed_tokens == 0 || round.after_tokens <= compaction.budget
        || round.kept_turns <= 1;
    Compaction {
        budget: compaction.budget,
        keep_turns: if finished {
            compaction.keep_turns
        } else {
            (round.kept_turns - 1) as usize
        },
        stats: CompactStats {
            after_tokens: round.after_tokens,
            kept_turns: round.kept_turns,
            summarized_turns: message::saturated(
                (compaction.stats.summarized_turns + round.summarized_turns) as nat,
            ),
            summarized_tool_outputs: message::saturated(
                (compaction.stats.summarized_tool_outputs + round.summarized_tool_outputs) as nat,
            ),
            ..compaction.stats
        },
        finished,
    }
}

/// What a compaction did in all.
pub open spec fn compaction_result(compaction: Compaction) -> CompactStats {
    CompactStats {
        freed_tokens: less(compaction.stats.before_tokens, compaction.stats.after_tokens),
        ..compaction.stats
    }
}

/// What was done about the context, once it was looked at.
pub open spec fn check_result(
    check: ContextCheck,
    compacted: Option<CompactStats>,
    used: usize,
) -> CompactStats {
    let stats = match compacted {
        Some(stats) => stats,
        None => CompactStats {
            before_tokens: check.before_tokens,
            after_tokens: used,
            freed_tokens: 0,
            kept_turns: 0,
            summarized_turns: 0,
            summarized_tool_outputs: 0,
            pruned_tool_outputs: 0,
        },
    };
    CompactStats {
        before_tokens: check.before_tokens,
        freed_tokens: less(check.before_tokens, stats.after_tokens),
        pruned_tool_outputs: check.pruned_tool_outputs,
        ..stats
    }
}

/// A compaction that goes on keeps fewer turns in its next round, and at
/// least one: it ends after at most as many rounds as it first keeps turns.
pub proof fn law_rounds_keep_fewer_turns(compaction: Compaction, round: CompactStats)
    requires
        round.kept_turns <= compaction.keep_turns,
    ensures
        !after_round(compaction, round).finished ==> 0 < after_round(compaction, round).keep_turns
            < compaction.keep_turns,
{
}

impl Agent {
    /// The tokens that the conversation takes.
    pub open spec fn used(&self) -> usize {
        state::used_tokens(text::views(self.messages@), self.usage_baseline)
    }

    /// Begins a compaction.
    pub fn begin_compaction(&self, limit: Option<ModelLimit>) -> (r: Compaction)
        ensures
            r == (Compaction {
                budget: state::budget(limit, self.fallback_context_tokens),
                keep_turns: self.compact_keep_turns,
                stats: CompactStats {
                    before_tokens: self.used(),
                    after_tokens: self.used(),
                    freed_tokens: 0,
                    kept_turns: 0,
                    summarized_turns: 0,
                    summarized_tool_outputs: 0,
                    pruned_tool_outputs: 0,
                },
                finished: false,
            }),
    {
        let used: usize = self.context_tokens();
        Compaction {
            budget: self.context_budget(limit),
            keep_turns: self.compact_keep_turns,
            stats: CompactStats {
                before_tokens: used,
                after_tokens: used,
                freed_tokens: 0,
                kept_turns: 0,
                summarized_turns: 0,
                summarized_tool_outputs: 0,
                pruned_tool_outputs: 0,
            },
            finished: false,
        }
    }

    /// Summarizes all but the turns that the round keeps, given what was
    /// archived of the messages before them.
    pub fn compaction_round(
        &mut self,
        compaction: Compaction,
        archived: &Vec<Option<MemoryPointer>>,
    ) -> (r: Compaction)
        requires
            old(self).wf(),
            compaction.keep_turns > 0 || compaction::user_positions(
                text::views(old(self).messages@),
            ).len() == 0,
            forall|i: int|
                0 <= i < archived@.len() ==> ((#[trigger] archived@[i]) matches Some(p) ==> p.wf()),
        ensures
            final(self).wf(),
            final(self).same_settings(old(self)),
            final(self).memory == old(self).memory,
            final(self).usage_baseline == old(self).usage_baseline,
            ({
                let before = text::views(old(self).messages@);
                let ctx = compaction::context_for(before, history::shared(&old(self).memory), archived);
                &&& text::views(final(self).messages@) == compaction::compacted(
                    before,
                    compaction.keep_turns as nat,
                    ctx,
                )
                &&& r == after_round(
                    compaction,
                    compaction::compact_stats(before, compaction.keep_turns as nat, ctx),
                )
            }),
            !r.finished ==> 0 < r.keep_turns < compaction.keep_turns,
    {
        let round = compaction::compact_messages(
            &mut self.messages,
            compaction.keep_turns,
            match &self.memory {
                Some(memory) => Some(memory),
                None => None,
            },
            archived,
        );
        let finished = round.freed_tokens == 0 || round.after_tokens <= compaction.budget
            || round.kept_turns <= 1;
        Compaction {
            budget: compaction.budget,
            keep_turns: if finished {
                compaction.keep_turns
            } else {
                round.kept_turns - 1
            },
            stats: CompactStats {
                before_tokens: compaction.stats.before_tokens,
                after_tokens: round.after_tokens,
                freed_tokens: compaction.stats.freed_tokens,
                kept_turns: round.kept_turns,
                summarized_turns: compaction.stats.summarized_turns.saturating_add(
                    round.summarized_turns,
                ),
                summarized_tool_outputs: compaction.stats.summarized_tool_outputs.saturating_add(
                    round.summarized_tool_outputs,
                ),
                pruned_tool_outputs: compaction.stats.pruned_tool_outputs,
            },
            finished,
        }
    }

    /// Ends a compaction. What the provider reported of the messages no longer
    /// holds where it freed anything.
    pub fn finish_compaction(&mut self, compaction: Compaction) -> (r: CompactStats)
        requires
            old(self).wf(),
        ensures
            final(self).wf(),
            r == compaction_result(compaction),
            state::is_synced(
                &(Agent {
                    usage_baseline: if r.freed_tokens > 0 {
                        None
                    } else {
                        old(self).usage_baseline
                    },
                    ..*old(self)
                }),
                final(self),
            ),
    {
        let mut stats = compaction.stats;
        stats.freed_tokens = stats.before_tokens.saturating_sub(stats.after_tokens);
        if stats.freed_tokens > 0 {
            self.usage_baseline = None;
        }
        self.sync_memory_context();
        stats
    }

    /// Looks at the context. Where it is near its budget, older outputs are
    /// cleared; where it is near it even so, it must be compacted.
    pub fn check_context(&mut self, limit: Option<ModelLimit>) -> (r: Option<ContextCheck>)
        requires
            old(self).wf(),
        ensures
            final(self).wf(),
            final(self).same_settings(old(self)),
            final(self).memory == old(self).memory,
            match r {
                None => {
                    &&& !is_near(old(self), limit)
                    &&& *final(self) == *old(self)
                },
                Some(check) => {
                    let before = text::views(old(self).messages@);
                    let memory = history::shared(&old(self).memory);
                    &&& is_near(old(self), limit)
                    &&& check.before_tokens == old(self).used()
                    &&& check.pruned_tool_outputs == history::pruned_count(
                        before,
                        memory,
                        before.len(),
                    )
                    &&& text::views(final(self).messages@) == history::pruned(
                        before,
                        memory,
                        before.len(),
                    )
                    &&& final(self).usage_baseline == if check.pruned_tool_outputs > 0 {
                        None
                    } else {
                        old(self).usage_baseline
                    }
                    &&& check.must_compact == is_near(final(self), limit)
                },
            },
    {
        let threshold: usize = state::compact_threshold(self.context_budget(limit));
        let before_tokens: usize = self.context_tokens();
        if before_tokens < threshold {
            return None;
        }
        let pruned_tool_outputs: usize = history::prune_tool_outputs(
            &mut self.messages,
            match &self.memory {
                Some(memory) => Some(memory),
                None => None,
            },
        );
        if pruned_tool_outputs > 0 {
            self.usage_baseline = None;
        }
        let must_compact = self.context_tokens() >= threshold;
        Some(ContextCheck { before_tokens, pruned_tool_outputs, must_compact })
    }

    /// Tells what was done about the context, where anything was freed.
    pub fn finish_check(
        &mut self,
        check: ContextCheck,
        compacted: Option<CompactStats>,
        events: &mut Vec<AgentEvent>,
    ) -> (r: CompactStats)
        requires
            old(self).wf(),
        ensures
            final(self).wf(),
            r == check_result(check, compacted, old(self).used()),
            if r.freed_tokens > 0 {
                &&& state::is_synced(old(self), final(self))
                &&& text::views(final(events)@) == text::views(old(events)@).push(
                    EventView::ContextCompacted { stats: r },
                )
            } else {
                &&& *final(self) == *old(self)
                &&& final(events)@ == old(events)@
            },
    {
        let mut stats = match compacted {
            Some(stats) => stats,
            None => CompactStats {
                before_tokens: check.before_tokens,
                after_tokens: self.context_tokens(),
                freed_tokens: 0,
                kept_turns: 0,
                summarized_turns: 0,
                summarized_tool_outputs: 0,
                pruned_tool_outputs: 0,
            },
        };
        stats.before_tokens = check.before_tokens;
        stats.freed_tokens = check.before_tokens.saturating_sub(stats.after_tokens);
        stats.pruned_tool_outputs = check.pruned_tool_outputs;
        if stats.freed_tokens > 0 {
            self.sync_memory_context();
            event::tell(events, AgentEvent::ContextCompacted { stats });
        }
        stats
    }
}

/// What a compaction did in all is what its rounds did together: the tokens are
/// those before the first and after the last round, and the difference is what
/// was freed.
pub proof fn law_rounds_add_up(compaction: Compaction, round: CompactStats)
    requires
        compaction.stats.summarized_turns + round.summarized_turns <= usize::MAX,
        compaction.stats.summarized_tool_outputs + round.summarized_tool_outputs <= usize::MAX,
    ensures
        ({
            let next = after_round(compaction, round);
            let result = compaction_result(next);
            &&& next.budget == compaction.budget
            &&& result.before_tokens == compaction.stats.before_tokens
            &&& result.after_tokens == round.after_tokens
            &&& result.after_tokens <= result.before_tokens ==> result.freed_tokens
                + result.after_tokens == result.before_tokens
            &&& result.kept_turns == round.kept_turns
            &&& result.summarized_turns == compaction.stats.summarized_turns
                + round.summarized_turns
            &&& result.summarized_tool_outputs == compaction.stats.summarized_tool_outputs
                + round.summarized_tool_outputs
            &&& next.finished <==> round.freed_tokens == 0 || round.after_tokens
                <= compaction.budget || round.kept_turns <= 1
        }),
{
}

} // verus!
