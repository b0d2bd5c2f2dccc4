//! A conversation: fitting the history into the window, building prompts, keeping the record.

use crate::chars;
use crate::text;
use vstd::prelude::*;
use vstd::utf8;

verus! {

/// The line that opens a question in the dialogue template.
pub const SFT_USER: &'static str = "用户：";

/// The line that opens an answer in the dialogue template.
pub const SFT_ASSISTANT: &'static str = "助手：";

/// What ends an answer in the dialogue template.
pub const SFT_END: &'static str = "。。";

/// How often dropped history is reported after the first time.
pub const HISTORY_REPORT_EVERY: usize = 10;

/// Whether `count` may find `n` tokens in a text.
pub open spec fn counted<F: Fn(&str) -> usize>(count: &F, s: Seq<char>, n: usize) -> bool {
    exists|t: &str| t@ == s && #[trigger] call_ensures(count, (t,), n)
}

/// Whether a text was found to fit the budget.
pub open spec fn within<F: Fn(&str) -> usize>(count: &F, s: Seq<char>, budget: usize) -> bool {
    exists|n: usize| #[trigger] counted(count, s, n) && n <= budget
}

/// Whether a text was found not to fit the budget.
pub open spec fn over<F: Fn(&str) -> usize>(count: &F, s: Seq<char>, budget: usize) -> bool {
    exists|n: usize| #[trigger] counted(count, s, n) && n > budget
}

/// Whether a history may begin at `p`: with the dialogue template a question opens there,
/// otherwise a line begins there. The whole history always may.
pub open spec fn starts(h: Seq<char>, by_turn: bool, p: int) -> bool {
    ||| p == 0
    ||| by_turn && 0 < p && p + SFT_USER@.len() <= h.len() && h.subrange(p, p + SFT_USER@.len())
        == SFT_USER@
    ||| !by_turn && 0 < p <= h.len() && h[p - 1] == '\n'
}

/// Whether `r` is what stays of a history: its longest rest that fits, or nothing.
pub open spec fn is_kept<F: Fn(&str) -> usize>(
    count: &F,
    h: Seq<char>,
    by_turn: bool,
    budget: usize,
    r: Seq<char>,
) -> bool {
    ||| h.len() == 0 && r == h
    ||| exists|p: int| #[trigger] is_first_fit(count, h, by_turn, budget, p) && r == h.skip(p)
    ||| r.len() == 0 && all_over(count, h, by_turn, budget, h.len() as int + 1)
}

/// Whether every start before `p` leaves too much.
pub open spec fn all_over<F: Fn(&str) -> usize>(
    count: &F,
    h: Seq<char>,
    by_turn: bool,
    budget: usize,
    p: int,
) -> bool {
    forall|q: int|
        0 <= q < p && q <= h.len() && #[trigger] starts(h, by_turn, q) ==> over(
            count,
            h.skip(q),
            budget,
        )
}

/// Whether `p` is the first start from which the history fits.
pub open spec fn is_first_fit<F: Fn(&str) -> usize>(
    count: &F,
    h: Seq<char>,
    by_turn: bool,
    budget: usize,
    p: int,
) -> bool {
    &&& 0 <= p <= h.len()
    &&& starts(h, by_turn, p)
    &&& within(count, h.skip(p), budget)
    &&& all_over(count, h, by_turn, budget, p)
}

fn is_start(h: &str, n: usize, by_turn: bool, p: usize) -> (r: bool)
    requires
        n == h@.len(),
        p <= n,
    ensures
        r == starts(h@, by_turn, p as int),
{
    if p == 0 {
        return true;
    }
    if by_turn {
        let m: usize = SFT_USER.unicode_len();
        n - p >= m && text::same_text(h.substring_char(p, p + m), SFT_USER)
    } else {
        h.get_char(p - 1) == '\n'
    }
}

fn keep<F: Fn(&str) -> usize>(count: &F, h: &str, by_turn: bool, budget: usize) -> (r: String)
    requires
        forall|t: &str| call_requires(count, (t,)),
    ensures
        is_kept(count, h@, by_turn, budget, r@),
{
    if h.is_empty() {
        let r: String = String::new();
        assert(r@ =~= h@);
        return r;
    }
    let n: usize = h.unicode_len();
    let mut p: usize = 0;
    while p <= n
        invariant
            n == h@.len(),
            p <= n + 1,
            forall|t: &str| call_requires(count, (t,)),
            all_over(count, h@, by_turn, budget, p as int),
        decreases n + 1 - p,
    {
        if is_start(h, n, by_turn, p) {
            let rest: &str = h.substring_char(p, n);
            let tokens: usize = count(rest);
            proof {
                assert(rest@ =~= h@.skip(p as int));
                assert(call_ensures(count, (rest,), tokens));
                assert(counted(count, h@.skip(p as int), tokens));
            }
            if tokens <= budget {
                assert(is_first_fit(count, h@, by_turn, budget, p as int));
                return String::from_str(rest);
            }
        }
        if p == n {
            let r: String = String::new();
            assert(all_over(count, h@, by_turn, budget, n + 1));
            return r;
        }
        p += 1;
    }
    String::new()
}

/// What stays of a plain history: lines are dropped from the front until the rest fits.
pub fn trim_history<F: Fn(&str) -> usize>(count: &F, history: &str, budget: usize) -> (r: String)
    requires
        forall|t: &str| call_requires(count, (t,)),
    ensures
        is_kept(count, history@, false, budget, r@),
{
    keep(count, history, false, budget)
}

/// What stays of a history in the dialogue template: whole turns are dropped from the front until
/// the rest fits.
pub fn trim_sft_history<F: Fn(&str) -> usize>(
    count: &F,
    history: &str,
    budget: usize,
) -> (r: String)
    requires
        forall|t: &str| call_requires(count, (t,)),
    ensures
        is_kept(count, history@, true, budget, r@),
{
    keep(count, history, true, budget)
}

/// What stays of a history is an end of it, begins where a line or a turn does, and was found to
/// fit the budget.
pub proof fn kept_histories_fit<F: Fn(&str) -> usize>(
    count: &F,
    h: Seq<char>,
    by_turn: bool,
    budget: usize,
    r: Seq<char>,
)
    requires
        is_kept(count, h, by_turn, budget, r),
    ensures
        r.len() <= h.len(),
        r == h.skip(h.len() - r.len()),
        r.len() > 0 ==> within(count, r, budget),
        r.len() > 0 && r.len() < h.len() ==> starts(h, by_turn, h.len() - r.len()),
{
    if h.len() == 0 {
        assert(r =~= h.skip(h.len() - r.len()));
    } else if r.len() == 0 {
        assert(r =~= h.skip(h.len() as int));
    } else {
        let p = choose|p: int| #[trigger]
            is_first_fit(count, h, by_turn, budget, p) && r == h.skip(p);
        assert(is_first_fit(count, h, by_turn, budget, p));
        assert(p == h.len() - r.len());
    }
}

/// What a turn adds to the prompt.
pub open spec fn tail_of(sft: bool, input: Seq<char>) -> Seq<char> {
    if sft {
        SFT_USER@ + "\n"@ + input + "\n"@ + SFT_ASSISTANT@ + "\n"@
    } else {
        input
    }
}

fn tail(sft: bool, input: &str) -> (r: String)
    ensures
        r@ == tail_of(sft, input@),
{
    if sft {
        let mut s: String = text::joined(SFT_USER, "\n");
        s.append(input);
        s.append("\n");
        s.append(SFT_ASSISTANT);
        s.append("\n");
        s
    } else {
        String::from_str(input)
    }
}

/// A text and a line break, or nothing.
pub open spec fn line_of(s: Seq<char>) -> Seq<char> {
    if s.len() == 0 {
        s
    } else {
        s + "\n"@
    }
}

/// The prompt: the system text, the history, this turn.
pub open spec fn prompt_of(system: Seq<char>, history: Seq<char>, tail: Seq<char>) -> Seq<char> {
    line_of(system) + line_of(history) + tail
}

fn prompt(system: &str, history: &str, tail: &str) -> (r: String)
    ensures
        r@ == prompt_of(system@, history@, tail@),
{
    let mut s: String = String::new();
    if !system.is_empty() {
        s.append(system);
        s.append("\n");
    }
    assert(s@ =~= line_of(system@));
    if !history.is_empty() {
        s.append(history);
        s.append("\n");
    }
    assert(s@ =~= line_of(system@) + line_of(history@));
    s.append(tail);
    s
}

/// The history after a turn.
pub open spec fn history_after(
    sft: bool,
    kept: Seq<char>,
    input: Seq<char>,
    answer: Seq<char>,
) -> Seq<char> {
    line_of(kept) + if sft {
        SFT_USER@ + "\n"@ + input + "\n"@ + SFT_ASSISTANT@ + "\n"@ + answer
    } else if answer.len() == 0 {
        input
    } else {
        input + "\n"@ + answer
    }
}

/// The system text stands in front of every prompt, whatever was dropped of the history.
pub proof fn system_text_comes_first(system: Seq<char>, history: Seq<char>, tail: Seq<char>)
    ensures
        system.is_prefix_of(prompt_of(system, history, tail)),
        tail.is_suffix_of(prompt_of(system, history, tail)),
{
    let p = prompt_of(system, history, tail);
    assert(p.subrange(0, system.len() as int) =~= system);
    assert(p.subrange(p.len() - tail.len(), p.len() as int) =~= tail);
}

/// A question with its answer can be cut off again as one turn.
pub proof fn turns_can_be_cut(kept: Seq<char>, input: Seq<char>, answer: Seq<char>)
    requires
        kept.len() > 0,
    ensures
        starts(history_after(true, kept, input, answer), true, line_of(kept).len() as int),
{
    let h = history_after(true, kept, input, answer);
    let p = line_of(kept).len() as int;
    assert(h.subrange(p, p + SFT_USER@.len()) =~= SFT_USER@);
}

/// What is said about dropped history.
#[derive(Clone, Copy, Debug, PartialEq, Eq, Structural)]
pub enum TrimNotice {
    /// Nothing.
    Silent,
    /// History was dropped for the first time.
    First { before: usize, budget: usize, dropped: usize, after: usize },
    /// History has been dropped many times.
    Again { trims: usize, since: usize, total: u128, after: usize },
}

/// One turn, ready to be generated.
#[derive(Clone, Debug)]
pub struct TurnPlan {
    /// The input, trimmed.
    pub input: String,
    /// What stays of the history.
    pub history: String,
    pub prompt: String,
    pub notice: TrimNotice,
    /// The token count of the prompt, where it is reported that it exceeds the window.
    pub overflow: Option<usize>,
}

/// A conversation in progress.
#[derive(Clone, Debug)]
pub struct ChatSession {
    /// Whether the dialogue template is used.
    pub sft: bool,
    pub system: String,
    /// Tokens of the system text.
    pub n_system: usize,
    pub block_size: usize,
    pub max_new: usize,
    /// Everything said so far that has not been dropped.
    pub history: String,
    pub turn: usize,
    pub first_trim: Option<usize>,
    pub trims: usize,
    pub dropped: u128,
    pub warned: bool,
}

/// The difference, or zero.
pub open spec fn less_or_zero(a: int, b: int) -> int {
    if a < b {
        0
    } else {
        a - b
    }
}

fn rest_of(a: usize, b: usize) -> (r: usize)
    ensures
        r == less_or_zero(a as int, b as int),
{
    if a < b {
        0
    } else {
        a - b
    }
}

/// What is said about a drop, and the counters after it.
pub open spec fn drop_report(
    s: ChatSession,
    budget: usize,
    before: usize,
    after: usize,
) -> (TrimNotice, Option<usize>, int, int) {
    let dropped = less_or_zero(before as int, after as int);
    let turn = (s.turn + 1) as usize;
    let trims = s.trims + 1;
    let total = s.dropped + dropped;
    match s.first_trim {
        None => (
            TrimNotice::First { before, budget, dropped: dropped as usize, after },
            Some(turn),
            trims,
            total,
        ),
        Some(since) => (
            if trims % (HISTORY_REPORT_EVERY as int) == 0 {
                TrimNotice::Again { trims: trims as usize, since, total: total as u128, after }
            } else {
                TrimNotice::Silent
            },
            Some(since),
            trims,
            total,
        ),
    }
}

/// Whether input ends the conversation.
pub open spec fn ends(input: Seq<char>) -> bool {
    let s = chars::trimmed(input);
    s == ":quit"@ || s == ":exit"@ || s.len() == 0
}

impl ChatSession {
    /// There were at most as many drops as turns.
    pub open spec fn wf(&self) -> bool {
        &&& self.trims <= self.turn
        &&& self.dropped <= self.turn * usize::MAX
        &&& self.system@ == chars::trimmed(self.system@)
    }

    /// Tokens for the whole input: the window less what is to be generated.
    pub open spec fn prompt_budget(&self) -> int {
        less_or_zero(self.block_size as int, self.max_new as int)
    }

    /// Tokens of the system text and its line break.
    pub open spec fn system_tokens(&self) -> int {
        if self.system@.len() == 0 {
            0
        } else {
            self.n_system + 1
        }
    }

    /// Tokens left for the history beside this turn's `tail` tokens.
    pub open spec fn history_budget(&self, tail: int) -> int {
        less_or_zero(self.prompt_budget(), self.system_tokens() + tail + 1)
    }

    /// Whether generating may push the input out of the window.
    pub open spec fn window_is_short(&self) -> bool {
        self.max_new >= self.block_size
    }

    /// Whether the system text leaves no room for history.
    pub open spec fn system_fills_budget(&self) -> bool {
        self.system_tokens() >= self.prompt_budget()
    }

    /// Starts a conversation.
    pub fn new<F: Fn(&str) -> usize>(
        sft: bool,
        system: &str,
        block_size: usize,
        max_new: usize,
        count: &F,
    ) -> (s: Self)
        requires
            forall|t: &str| call_requires(count, (t,)),
        ensures
            s.wf(),
            s.sft == sft,
            s.system@ == chars::trimmed(system@),
            counted(count, s.system@, s.n_system),
            s.block_size == block_size,
            s.max_new == max_new,
            s.history@.len() == 0,
            s.turn == 0,
            s.first_trim is None,
            s.trims == 0,
            s.dropped == 0,
            !s.warned,
    {
        let short: &str = chars::trim(system);
        let n_system: usize = count(short);
        proof {
            assert(call_ensures(count, (short,), n_system));
            chars::trimming_twice(system@);
        }
        ChatSession {
            sft,
            system: String::from_str(short),
            n_system,
            block_size,
            max_new,
            history: String::new(),
            turn: 0,
            first_trim: None,
            trims: 0,
            dropped: 0,
            warned: false,
        }
    }

    /// What stops an answer: in the dialogue template the mark that ends one and, for a model that
    /// goes on with the template, the line that opens the next question.
    pub fn stop_marks(&self) -> (r: Vec<&'static str>)
        ensures
            r@ == (if self.sft {
                seq![SFT_END, SFT_USER]
            } else {
                seq![]
            }),
    {
        let mut r: Vec<&'static str> = Vec::new();
        if self.sft {
            r.push(SFT_END);
            r.push(SFT_USER);
        }
        r
    }

    /// Whether generating may push the input out of the window.
    pub fn is_window_short(&self) -> (r: bool)
        ensures
            r == self.window_is_short(),
    {
        self.max_new >= self.block_size
    }

    /// Whether the system text leaves no room for history.
    pub fn is_budget_full(&self) -> (r: bool)
        ensures
            r == self.system_fills_budget(),
    {
        let budget: usize = rest_of(self.block_size, self.max_new);
        if self.system.as_str().is_empty() {
            budget == 0
        } else {
            self.n_system >= budget || self.n_system + 1 >= budget
        }
    }

    /// The tokens left for the history.
    fn budget_left(&self, n_tail: usize) -> (r: usize)
        ensures
            r == self.history_budget(n_tail as int),
    {
        let budget: usize = rest_of(self.block_size, self.max_new);
        let left: usize = if self.system.as_str().is_empty() {
            budget
        } else {
            rest_of(rest_of(budget, self.n_system), 1)
        };
        rest_of(rest_of(left, n_tail), 1)
    }

    /// Takes the user's input: ends the conversation, or trims the history and builds the prompt.
    #[verifier::rlimit(40)]
    pub fn begin_turn<F: Fn(&str) -> usize>(&mut self, input: &str, count: &F) -> (r: Option<
        TurnPlan,
    >)
        requires
            old(self).wf(),
            old(self).turn < usize::MAX,
            forall|t: &str| call_requires(count, (t,)),
        ensures
            final(self).wf(),
            r is None == ends(input@),
            r is None ==> *final(self) == *old(self),
            r matches Some(plan) ==> is_begun(count, *old(self), input@, plan, *final(self)),
    {
        let input: &str = chars::trim(input);
        proof {
            reveal_strlit(":quit");
            reveal_strlit(":exit");
        }
        if text::same_text(input, ":quit") || text::same_text(input, ":exit") || input.is_empty() {
            return None;
        }
        let ghost start = *self;
        let turn: usize = self.turn + 1;
        let added: String = tail(self.sft, input);
        let n_tail: usize = count(added.as_str());
        let budget: usize = self.budget_left(n_tail);
        let history: String = if self.sft {
            trim_sft_history(count, self.history.as_str(), budget)
        } else {
            trim_history(count, self.history.as_str(), budget)
        };
        proof {
            kept_histories_fit(count, start.history@, start.sft, budget, history@);
        }
        let mut notice: TrimNotice = TrimNotice::Silent;
        let mut first_trim: Option<usize> = self.first_trim;
        let mut trims: usize = self.trims;
        let mut dropped_total: u128 = self.dropped;
        let ghost mut before_g: usize = 0;
        let ghost mut after_g: usize = 0;
        proof {
            assert((start.turn + 1) * usize::MAX == start.turn * usize::MAX + usize::MAX)
                by (nonlinear_arith);
            assert((start.turn + 1) * usize::MAX <= u128::MAX) by (nonlinear_arith)
                requires
                    start.turn + 1 <= usize::MAX,
                    usize::MAX <= u64::MAX,
            ;
        }
        let shorter: bool = history.as_str().unicode_len() < self.history.as_str().unicode_len();
        if shorter {
            let before: usize = count(self.history.as_str());
            let after: usize = count(history.as_str());
            proof {
                assert(counted(count, start.history@, before));
                assert(counted(count, history@, after));
                before_g = before;
                after_g = after;
            }
            let dropped: usize = rest_of(before, after);
            trims = trims + 1;
            dropped_total = dropped_total + dropped as u128;
            match first_trim {
                None => {
                    first_trim = Some(turn);
                    notice = TrimNotice::First { before, budget, dropped, after };
                },
                Some(since) => {
                    if trims % HISTORY_REPORT_EVERY == 0 {
                        notice = TrimNotice::Again { trims, since, total: dropped_total, after };
                    }
                },
            }
        }
        let whole: String = prompt(self.system.as_str(), history.as_str(), added.as_str());
        let n_prompt: usize = count(whole.as_str());
        assert(counted(count, whole@, n_prompt));
        let overflow: Option<usize> = if n_prompt > self.block_size && !self.warned {
            Some(n_prompt)
        } else {
            None
        };
        self.warned = self.warned || n_prompt > self.block_size;
        self.turn = turn;
        self.first_trim = first_trim;
        self.trims = trims;
        self.dropped = dropped_total;
        let plan: TurnPlan = TurnPlan {
            input: String::from_str(input),
            history,
            prompt: whole,
            notice,
            overflow,
        };
        proof {
            assert(counted(count, tail_of(start.sft, plan.input@), n_tail));
            if shorter {
                assert(drop_fits(count, start, budget, plan, *self, before_g, after_g));
            }
            assert(is_turn(count, start, budget, plan, *self));
            assert(overflow_fits(count, start, plan, *self, n_prompt));
        }
        Some(plan)
    }

    /// Takes what the model wrote: returns the answer in it and adds the turn to the history.
    pub fn end_turn(&mut self, plan: TurnPlan, out: &str) -> (answer: String)
        requires
            old(self).wf(),
        ensures
            final(self).wf(),
            chars::follows(out@, utf8::encode_utf8(plan.prompt@).len() as int, answer@),
            final(self).history@ == history_after(
                old(self).sft,
                plan.history@,
                plan.input@,
                answer@,
            ),
            final(self).sft == old(self).sft,
            final(self).system == old(self).system,
            final(self).n_system == old(self).n_system,
            final(self).block_size == old(self).block_size,
            final(self).max_new == old(self).max_new,
            final(self).turn == old(self).turn,
            final(self).first_trim == old(self).first_trim,
            final(self).trims == old(self).trims,
            final(self).dropped == old(self).dropped,
            final(self).warned == old(self).warned,
    {
        let answer: String = chars::answer_after(out, plan.prompt.as_str());
        let mut history: String = String::new();
        if !plan.history.as_str().is_empty() {
            history.append(plan.history.as_str());
            history.append("\n");
        }
        assert(history@ =~= line_of(plan.history@));
        if self.sft {
            let asked: String = tail(true, plan.input.as_str());
            history.append(asked.as_str());
            history.append(answer.as_str());
        } else {
            history.append(plan.input.as_str());
            if !answer.as_str().is_empty() {
                history.append("\n");
                history.append(answer.as_str());
            }
        }
        assert(history@ =~= history_after(self.sft, plan.history@, plan.input@, answer@));
        self.history = history;
        answer
    }
}

/// Whether this count explains what is said about a prompt that exceeds the window: it is said
/// once.
pub open spec fn overflow_fits<F: Fn(&str) -> usize>(
    count: &F,
    s: ChatSession,
    plan: TurnPlan,
    t: ChatSession,
    n: usize,
) -> bool {
    &&& counted(count, plan.prompt@, n)
    &&& plan.overflow == if n > s.block_size && !s.warned {
        Some(n)
    } else {
        None
    }
    &&& t.warned == (s.warned || n > s.block_size)
}

/// Whether input begins a turn with this plan: the conversation goes from `s` to `t`.
pub open spec fn is_begun<F: Fn(&str) -> usize>(
    count: &F,
    s: ChatSession,
    input: Seq<char>,
    plan: TurnPlan,
    t: ChatSession,
) -> bool {
    let added = tail_of(s.sft, chars::trimmed(input));
    &&& t.turn == s.turn + 1
    &&& t.sft == s.sft
    &&& t.system == s.system
    &&& t.n_system == s.n_system
    &&& t.block_size == s.block_size
    &&& t.max_new == s.max_new
    &&& t.history == s.history
    &&& plan.input@ == chars::trimmed(input)
    &&& plan.prompt@ == prompt_of(s.system@, plan.history@, added)
    &&& exists|n: usize| #[trigger]
        counted(count, added, n) && is_turn(
            count,
            s,
            s.history_budget(n as int) as usize,
            plan,
            t,
        )
    &&& exists|n: usize| #[trigger] overflow_fits(count, s, plan, t, n)
}

/// Whether these counts explain what is said about a drop.
pub open spec fn drop_fits<F: Fn(&str) -> usize>(
    count: &F,
    s: ChatSession,
    budget: usize,
    plan: TurnPlan,
    t: ChatSession,
    before: usize,
    after: usize,
) -> bool {
    &&& counted(count, s.history@, before)
    &&& counted(count, plan.history@, after)
    &&& drop_report(s, budget, before, after) == (
        plan.notice,
        t.first_trim,
        t.trims as int,
        t.dropped as int,
    )
}

/// Whether a turn trims the history of `s` to the budget and leaves the counters of `t`.
pub open spec fn is_turn<F: Fn(&str) -> usize>(
    count: &F,
    s: ChatSession,
    budget: usize,
    plan: TurnPlan,
    t: ChatSession,
) -> bool {
    &&& is_kept(count, s.history@, s.sft, budget, plan.history@)
    &&& if plan.history@.len() < s.history@.len() {
        exists|before: usize, after: usize| #[trigger]
            drop_fits(count, s, budget, plan, t, before, after)
    } else {
        &&& plan.notice is Silent
        &&& t.first_trim == s.first_trim
        &&& t.trims == s.trims
        &&& t.dropped == s.dropped
    }
}

} // verus!
