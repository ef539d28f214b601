//! The conflict resolver: of commands that target the same device attribute,
//! the highest priority wins (the smaller command id on a tie); every other
//! command loses and is recorded as a conflict.
use vstd::prelude::*;
use crate::ordered_map::Duplicate;
use crate::outside::now_ms;
use crate::strings::{lemma_seq_lt_asymmetric, lemma_seq_lt_total, lemma_seq_lt_transitive, seq_lt, str_lt};
use crate::types::{AttributeKey, Command, DeviceId, RuleId};

verus! {

#[derive(Debug, Clone)]
pub struct ConflictRecord {
    pub winning_command_id: String,
    pub losing_command_id: String,
    pub device_id: DeviceId,
    pub attribute: AttributeKey,
    pub winning_rule: Option<RuleId>,
    pub losing_rule: Option<RuleId>,
    pub winning_priority: u8,
    pub losing_priority: u8,
    pub reason: ConflictReason,
    pub timestamp: u64,
}

#[derive(Debug, Clone, Copy, PartialEq, Eq, Structural)]
pub enum ConflictReason {
    LowerPriority,
    /// Tie broken by command id: the smaller id wins.
    PriorityTie,
}

pub struct ResolvedCommands {
    pub winners: Vec<Command>,
    pub conflicts: Vec<ConflictRecord>,
}

/// Stateless: priority is read from each command.
pub struct ConflictResolver;

/// The device attribute a command targets.
pub open spec fn target(c: Command) -> (Seq<char>, Seq<char>) {
    (c.device_id.0@, c.attribute.0@)
}

/// `a` sorts before `b`: higher priority first, then smaller id.
pub open spec fn ranks_before(a: Command, b: Command) -> bool {
    a.priority > b.priority || (a.priority == b.priority && seq_lt(a.id@, b.id@))
}

/// Index of the group whose commands target `k`, or -1.
pub open spec fn group_pos(groups: Seq<Seq<Command>>, k: (Seq<char>, Seq<char>)) -> int
    decreases groups.len(),
{
    if groups.len() == 0 {
        -1
    } else if groups.last().len() > 0 && target(groups.last()[0]) == k {
        groups.len() - 1
    } else {
        group_pos(groups.drop_last(), k)
    }
}

/// The commands grouped by target, groups in order of first appearance,
/// each group in input order.
pub open spec fn grouping(cmds: Seq<Command>) -> Seq<Seq<Command>>
    decreases cmds.len(),
{
    if cmds.len() == 0 {
        Seq::empty()
    } else {
        let g = grouping(cmds.drop_last());
        let c = cmds.last();
        let p = group_pos(g, target(c));
        if p >= 0 {
            g.update(p, g[p].push(c))
        } else {
            g.push(seq![c])
        }
    }
}

/// `x` placed after every command of `sorted` that it does not rank before.
pub open spec fn insert_ranked(sorted: Seq<Command>, x: Command) -> Seq<Command>
    decreases sorted.len(),
{
    if sorted.len() == 0 || !ranks_before(x, sorted.last()) {
        sorted.push(x)
    } else {
        insert_ranked(sorted.drop_last(), x).push(sorted.last())
    }
}

/// The stable sort of a group by rank.
pub open spec fn rank_sort(s: Seq<Command>) -> Seq<Command>
    decreases s.len(),
{
    if s.len() == 0 {
        s
    } else {
        insert_ranked(rank_sort(s.drop_last()), s.last())
    }
}

/// The record of `loser` losing to `winner`.
pub open spec fn conflict_for(winner: Command, loser: Command, r: ConflictRecord, now: u64) -> bool {
    &&& r.winning_command_id == winner.id
    &&& r.losing_command_id == loser.id
    &&& r.device_id.0@ == winner.device_id.0@
    &&& r.attribute.0@ == winner.attribute.0@
    &&& r.winning_rule == winner.rule_id
    &&& r.losing_rule == loser.rule_id
    &&& r.winning_priority == winner.priority
    &&& r.losing_priority == loser.priority
    &&& r.reason == reason_of(winner, loser)
    &&& r.timestamp == now
}

/// The winner of each group, in group order.
pub open spec fn winners_of(groups: Seq<Seq<Command>>) -> Seq<Command> {
    groups.map_values(|g: Seq<Command>| rank_sort(g)[0])
}

/// The (winner, loser) pairs of each group, group by group, losers in rank order.
pub open spec fn losers_of(groups: Seq<Seq<Command>>) -> Seq<(Command, Command)>
    decreases groups.len(),
{
    if groups.len() == 0 {
        Seq::empty()
    } else {
        let sorted = rank_sort(groups.last());
        losers_of(groups.drop_last()) + sorted.subrange(1, sorted.len() as int).map_values(
            |l: Command| (sorted[0], l),
        )
    }
}

pub open spec fn records_match(rs: Seq<ConflictRecord>, pairs: Seq<(Command, Command)>, now: u64) -> bool {
    &&& rs.len() == pairs.len()
    &&& forall|i: int| 0 <= i < rs.len() ==> #[trigger] conflict_for(pairs[i].0, pairs[i].1, rs[i], now)
}

// ── Lemmas ───────────────────────────────────────────────────

proof fn lemma_group_pos(groups: Seq<Seq<Command>>, k: (Seq<char>, Seq<char>))
    ensures
        -1 <= group_pos(groups, k) < groups.len(),
        group_pos(groups, k) >= 0 ==> groups[group_pos(groups, k)].len() > 0 && target(
            groups[group_pos(groups, k)][0],
        ) == k,
        group_pos(groups, k) < 0 ==> forall|j: int|
            0 <= j < groups.len() && groups[j].len() > 0 ==> target(#[trigger] groups[j][0]) != k,
    decreases groups.len(),
{
    if groups.len() > 0 {
        lemma_group_pos(groups.drop_last(), k);
        assert forall|j: int| 0 <= j < groups.len() - 1 implies groups.drop_last()[j] == groups[j] by {}
    }
}

proof fn lemma_insert_ranked_len(s: Seq<Command>, x: Command)
    ensures
        insert_ranked(s, x).len() == s.len() + 1,
        insert_ranked(s, x).to_multiset() == s.to_multiset().insert(x),
    decreases s.len(),
{
    broadcast use vstd::seq_lib::group_to_multiset_ensures;
    if s.len() > 0 && ranks_before(x, s.last()) {
        lemma_insert_ranked_len(s.drop_last(), x);
        assert(s =~= s.drop_last().push(s.last()));
    }
}

/// Ranking keeps exactly the group's commands.
pub proof fn lemma_rank_sort_permutes(s: Seq<Command>)
    ensures
        rank_sort(s).len() == s.len(),
        rank_sort(s).to_multiset() == s.to_multiset(),
    decreases s.len(),
{
    broadcast use vstd::seq_lib::group_to_multiset_ensures;
    if s.len() > 0 {
        lemma_rank_sort_permutes(s.drop_last());
        lemma_insert_ranked_len(rank_sort(s.drop_last()), s.last());
        assert(s =~= s.drop_last().push(s.last()));
    }
}

proof fn lemma_insert_ranked_at(s: Seq<Command>, x: Command, p: int)
    requires
        0 <= p <= s.len(),
        forall|j: int| p <= j < s.len() ==> ranks_before(x, #[trigger] s[j]),
        p == 0 || !ranks_before(x, s[p - 1]),
    ensures
        insert_ranked(s, x) == s.insert(p, x),
    decreases s.len() - p,
{
    if p == s.len() {
        assert(s.push(x) =~= s.insert(p, x));
    } else {
        let t = s.drop_last();
        assert forall|j: int| p <= j < t.len() implies ranks_before(x, #[trigger] t[j]) by {
            assert(t[j] == s[j]);
        }
        if p > 0 {
            assert(t[p - 1] == s[p - 1]);
        }
        lemma_insert_ranked_at(t, x, p);
        assert(t.insert(p, x).push(s.last()) =~= s.insert(p, x));
    }
}

// ── Executable ───────────────────────────────────────────────

fn same_target(a: &Command, b: &Command) -> (r: bool)
    ensures
        r == (target(*a) == target(*b)),
{
    a.device_id.0 == b.device_id.0 && a.attribute.0 == b.attribute.0
}

fn rank_lt(a: &Command, b: &Command) -> (r: bool)
    ensures
        r == ranks_before(*a, *b),
{
    a.priority > b.priority || (a.priority == b.priority && str_lt(a.id.as_str(), b.id.as_str()))
}

/// Groups commands by target, keeping input order within and across groups.
fn group_commands(candidates: Vec<Command>) -> (groups: Vec<Vec<Command>>)
    ensures
        groups@.len() == grouping(candidates@).len(),
        forall|g: int| 0 <= g < groups@.len() ==> #[trigger] groups@[g]@ == grouping(candidates@)[g],
{
    let ghost orig = candidates@;
    let mut rest = candidates;
    let mut groups: Vec<Vec<Command>> = Vec::new();
    let n = rest.len();
    let mut i: usize = 0;
    while i < n
        invariant
            n == orig.len(),
            i <= n,
            rest@ == orig.subrange(i as int, n as int),
            groups@.len() == grouping(orig.subrange(0, i as int)).len(),
            forall|g: int| 0 <= g < groups@.len() ==> #[trigger] groups@[g]@ == grouping(
                orig.subrange(0, i as int),
            )[g],
            forall|g: int| 0 <= g < groups@.len() ==> (#[trigger] groups@[g]@).len() > 0,
        decreases n - i,
    {
        let c = rest.remove(0);
        let ghost gs = grouping(orig.subrange(0, i as int));
        proof {
            let t = orig.subrange(0, i + 1);
            assert(t.drop_last() =~= orig.subrange(0, i as int));
            assert(t.last() == c);
            lemma_group_pos(gs, target(c));
            lemma_grouping_nonempty(orig.subrange(0, i as int));
        }
        let mut p: usize = groups.len();
        let mut j: usize = groups.len();
        while j > 0
            invariant
                j <= groups@.len(),
                p <= groups@.len(),
                groups@.len() == gs.len(),
                forall|g: int| 0 <= g < gs.len() ==> (#[trigger] gs[g]).len() > 0,
                forall|g: int| 0 <= g < groups@.len() ==> #[trigger] groups@[g]@ == gs[g],
                forall|g: int| 0 <= g < groups@.len() ==> (#[trigger] groups@[g]@).len() > 0,
                p == groups@.len() ==> forall|g: int| j <= g < groups@.len() ==> target(#[trigger] gs[g][0]) != target(c),
                p < groups@.len() ==> p == group_pos(gs, target(c)),
            decreases j,
        {
            if p == groups.len() {
                if same_target(&groups[j - 1][0], &c) {
                    p = j - 1;
                    proof {
                        lemma_group_pos_last(gs, target(c), j - 1);
                    }
                }
            }
            j = j - 1;
        }
        if p < groups.len() {
            let ghost before = groups@;
            let mut g = groups.remove(p);
            g.push(c);
            groups.insert(p, g);
            proof {
                assert forall|h: int| 0 <= h < groups@.len() implies #[trigger] groups@[h]@ == grouping(
                    orig.subrange(0, i + 1),
                )[h] by {
                    if h != p {
                        assert(groups@[h] == before[h]);
                    }
                }
            }
        } else {
            proof {
                lemma_group_pos_none(gs, target(c));
            }
            groups.push(vec![c]);
            proof {
                assert(groups@[groups@.len() - 1]@ =~= seq![c]);
            }
        }
        i = i + 1;
    }
    assert(orig.subrange(0, n as int) =~= orig);
    groups
}

proof fn lemma_grouping_nonempty(s: Seq<Command>)
    ensures
        forall|g: int| 0 <= g < grouping(s).len() ==> (#[trigger] grouping(s)[g]).len() > 0,
    decreases s.len(),
{
    if s.len() > 0 {
        lemma_grouping_nonempty(s.drop_last());
        lemma_group_pos(grouping(s.drop_last()), target(s.last()));
    }
}

proof fn lemma_group_pos_last(gs: Seq<Seq<Command>>, k: (Seq<char>, Seq<char>), j: int)
    requires
        0 <= j < gs.len(),
        gs[j].len() > 0,
        target(gs[j][0]) == k,
        forall|g: int| j < g < gs.len() ==> target(#[trigger] gs[g][0]) != k,
        forall|g: int| 0 <= g < gs.len() ==> (#[trigger] gs[g]).len() > 0,
    ensures
        group_pos(gs, k) == j,
    decreases gs.len(),
{
    if j < gs.len() - 1 {
        let t = gs.drop_last();
        assert forall|g: int| j < g < t.len() implies target(#[trigger] t[g][0]) != k by {
            assert(t[g] == gs[g]);
        }
        assert forall|g: int| 0 <= g < t.len() implies (#[trigger] t[g]).len() > 0 by {
            assert(t[g] == gs[g]);
        }
        lemma_group_pos_last(t, k, j);
    }
}

proof fn lemma_group_pos_none(gs: Seq<Seq<Command>>, k: (Seq<char>, Seq<char>))
    requires
        forall|g: int| 0 <= g < gs.len() ==> target(#[trigger] gs[g][0]) != k,
        forall|g: int| 0 <= g < gs.len() ==> (#[trigger] gs[g]).len() > 0,
    ensures
        group_pos(gs, k) == -1,
    decreases gs.len(),
{
    if gs.len() > 0 {
        let t = gs.drop_last();
        assert forall|g: int| 0 <= g < t.len() implies target(#[trigger] t[g][0]) != k by {
            assert(t[g] == gs[g]);
        }
        assert forall|g: int| 0 <= g < t.len() implies (#[trigger] t[g]).len() > 0 by {
            assert(t[g] == gs[g]);
        }
        lemma_group_pos_none(t, k);
    }
}

/// Stable insertion sort of a group by rank.
fn sort_group(group: Vec<Command>) -> (sorted: Vec<Command>)
    ensures
        sorted@ == rank_sort(group@),
{
    let ghost orig = group@;
    let mut rest = group;
    let mut sorted: Vec<Command> = Vec::new();
    let n = rest.len();
    let mut k: usize = 0;
    while k < n
        invariant
            n == orig.len(),
            k <= n,
            rest@ == orig.subrange(k as int, n as int),
            sorted@ == rank_sort(orig.subrange(0, k as int)),
        decreases n - k,
    {
        let x = rest.remove(0);
        proof {
            let t = orig.subrange(0, k + 1);
            assert(t.drop_last() =~= orig.subrange(0, k as int));
            assert(t.last() == x);
        }
        let mut p = sorted.len();
        while p > 0 && rank_lt(&x, &sorted[p - 1])
            invariant
                p <= sorted@.len(),
                forall|j: int| p <= j < sorted@.len() ==> ranks_before(x, #[trigger] sorted@[j]),
            decreases p,
        {
            p = p - 1;
        }
        let ghost sb = sorted@;
        proof {
            lemma_insert_ranked_at(sb, x, p as int);
        }
        sorted.insert(p, x);
        k = k + 1;
    }
    assert(orig.subrange(0, n as int) =~= orig);
    sorted
}

impl ConflictResolver {
    pub fn new() -> (r: Self)
        ensures
            r == ConflictResolver,
    {
        ConflictResolver
    }

    /// Resolves conflicts with the records stamped `now`.
    ///
    /// Commands are grouped by target device attribute (groups in order of
    /// first appearance). In each group the commands are ranked, highest
    /// priority first and the smaller id first on a tie; the first wins and
    /// every other one is recorded as losing to it.
    pub fn resolve_at(&self, candidates: Vec<Command>, now: u64) -> (r: ResolvedCommands)
        ensures
            r.winners@ == winners_of(grouping(candidates@)),
            records_match(r.conflicts@, losers_of(grouping(candidates@)), now),
    {
        let ghost gs = grouping(candidates@);
        proof {
            lemma_grouping_nonempty(candidates@);
        }
        let groups = group_commands(candidates);
        let mut winners: Vec<Command> = Vec::new();
        let mut conflicts: Vec<ConflictRecord> = Vec::new();
        let mut rest = groups;
        let n = rest.len();
        let mut i: usize = 0;
        while i < n
            invariant
                n == gs.len(),
                i <= n,
                rest@.len() == n - i,
                forall|g: int| 0 <= g < rest@.len() ==> #[trigger] rest@[g]@ == gs[i + g],
                forall|g: int| 0 <= g < gs.len() ==> (#[trigger] gs[g]).len() > 0,
                winners@ == winners_of(gs.subrange(0, i as int)),
                records_match(conflicts@, losers_of(gs.subrange(0, i as int)), now),
            decreases n - i,
        {
            let ghost rb = rest@;
            let group = rest.remove(0);
            proof {
                assert(group@ == gs[i as int]);
                assert forall|g: int| 0 <= g < rest@.len() implies #[trigger] rest@[g]@ == gs[i + 1 + g] by {
                    assert(rest@[g] == rb[g + 1]);
                }
                lemma_rank_sort_permutes(group@);
                let t = gs.subrange(0, i + 1);
                assert(t.drop_last() =~= gs.subrange(0, i as int));
                assert(t.last() == gs[i as int]);
            }
            let mut sorted = sort_group(group);
            let ghost sv = sorted@;
            let winner = sorted.remove(0);
            let ghost before = conflicts@;
            let m = sorted.len();
            let mut j: usize = 0;
            while j < m
                invariant
                    m == sorted@.len(),
                    j <= m,
                    sorted@ == sv.subrange(1, sv.len() as int),
                    winner == sv[0],
                    conflicts@.len() == before.len() + j,
                    forall|k: int| 0 <= k < before.len() ==> conflicts@[k] == before[k],
                    forall|k: int|
                        0 <= k < j ==> #[trigger] conflict_for(winner, sorted@[k], conflicts@[before.len() + k], now),
                decreases m - j,
            {
                let loser = &sorted[j];
                let reason = if loser.priority == winner.priority {
                    ConflictReason::PriorityTie
                } else {
                    ConflictReason::LowerPriority
                };
                let rec = ConflictRecord {
                    winning_command_id: winner.id.clone(),
                    losing_command_id: loser.id.clone(),
                    device_id: DeviceId(winner.device_id.0.clone()),
                    attribute: AttributeKey(winner.attribute.0.clone()),
                    winning_rule: winner.rule_id.duplicate(),
                    losing_rule: loser.rule_id.duplicate(),
                    winning_priority: winner.priority,
                    losing_priority: loser.priority,
                    reason,
                    timestamp: now,
                };
                let ghost cb = conflicts@;
                conflicts.push(rec);
                proof {
                    assert forall|k: int| 0 <= k < j + 1 implies #[trigger] conflict_for(
                        winner,
                        sorted@[k],
                        conflicts@[before.len() + k],
                        now,
                    ) by {
                        if k < j {
                            assert(conflicts@[before.len() + k] == cb[before.len() + k]);
                        }
                    }
                }
                j = j + 1;
            }
            let ghost wb = winners@;
            winners.push(winner);
            proof {
                let g = gs[i as int];
                let pairs = losers_of(gs.subrange(0, i + 1));
                let p0 = losers_of(gs.subrange(0, i as int));
                let p1 = sv.subrange(1, sv.len() as int).map_values(|l: Command| (sv[0], l));
                assert(sv == rank_sort(g));
                assert(pairs == p0 + p1);
                assert forall|k: int| 0 <= k < conflicts@.len() implies #[trigger] conflict_for(
                    pairs[k].0,
                    pairs[k].1,
                    conflicts@[k],
                    now,
                ) by {
                    if k < before.len() {
                        assert(pairs[k] == p0[k]);
                        assert(conflicts@[k] == before[k]);
                    } else {
                        assert(pairs[k] == p1[k - before.len()]);
                        assert(conflict_for(winner, sorted@[k - before.len()], conflicts@[before.len() + (k - before.len())], now));
                    }
                }
                assert(winners@ =~= winners_of(gs.subrange(0, i + 1)));
            }
            i = i + 1;
        }
        assert(gs.subrange(0, n as int) =~= gs);
        ResolvedCommands { winners, conflicts }
    }

    /// Resolves conflicts with the records stamped with the current time.
    pub fn resolve(&self, candidates: Vec<Command>) -> (r: ResolvedCommands)
        ensures
            r.winners@ == winners_of(grouping(candidates@)),
            exists|now: u64| records_match(r.conflicts@, losers_of(grouping(candidates@)), now),
    {
        if candidates.len() == 0 {
            let r = ResolvedCommands { winners: Vec::new(), conflicts: Vec::new() };
            proof {
                assert(grouping(candidates@) =~= Seq::<Seq<Command>>::empty());
                assert(winners_of(grouping(candidates@)) =~= Seq::<Command>::empty());
                assert(records_match(r.conflicts@, losers_of(grouping(candidates@)), 0));
            }
            return r;
        }
        let now = now_ms();
        self.resolve_at(candidates, now)
    }
}


// ── Laws ─────────────────────────────────────────────────────

/// The number of commands across all groups.
pub open spec fn total_len(gs: Seq<Seq<Command>>) -> int
    decreases gs.len(),
{
    if gs.len() == 0 {
        0
    } else {
        total_len(gs.drop_last()) + gs.last().len()
    }
}

proof fn lemma_total_len_update(gs: Seq<Seq<Command>>, p: int, x: Seq<Command>)
    requires
        0 <= p < gs.len(),
    ensures
        total_len(gs.update(p, x)) == total_len(gs) - gs[p].len() + x.len(),
    decreases gs.len(),
{
    let t = gs.update(p, x);
    if p == gs.len() - 1 {
        assert(t.drop_last() =~= gs.drop_last());
    } else {
        assert(t.drop_last() =~= gs.drop_last().update(p, x));
        lemma_total_len_update(gs.drop_last(), p, x);
    }
}

/// Every group is non-empty, its commands share one target, no two groups
/// share a target, and together they hold every command.
proof fn lemma_grouping_shape(s: Seq<Command>)
    ensures
        forall|g: int| 0 <= g < grouping(s).len() ==> (#[trigger] grouping(s)[g]).len() > 0,
        forall|g: int, m: int|
            0 <= g < grouping(s).len() && 0 <= m < grouping(s)[g].len() ==> target(
                #[trigger] grouping(s)[g][m],
            ) == target(grouping(s)[g][0]),
        forall|a: int, b: int|
            0 <= a < b < grouping(s).len() ==> target(#[trigger] grouping(s)[a][0]) != target(
                #[trigger] grouping(s)[b][0],
            ),
        total_len(grouping(s)) == s.len(),
    decreases s.len(),
{
    lemma_grouping_nonempty(s);
    if s.len() > 0 {
        let g = grouping(s.drop_last());
        let c = s.last();
        lemma_grouping_shape(s.drop_last());
        lemma_group_pos(g, target(c));
        let p = group_pos(g, target(c));
        let gs = grouping(s);
        if p >= 0 {
            assert(gs == g.update(p, g[p].push(c)));
            lemma_total_len_update(g, p, g[p].push(c));
            assert forall|a: int, m: int| 0 <= a < gs.len() && 0 <= m < gs[a].len() implies target(
                #[trigger] gs[a][m],
            ) == target(gs[a][0]) by {
                if a == p {
                    if m < g[p].len() {
                        assert(gs[a][m] == g[p][m]);
                    }
                    assert(gs[a][0] == g[p][0]);
                }
            }
            assert forall|a: int, b: int| 0 <= a < b < gs.len() implies target(#[trigger] gs[a][0])
                != target(#[trigger] gs[b][0]) by {
                assert(gs[a][0] == g[a][0]);
                assert(gs[b][0] == g[b][0]);
            }
        } else {
            assert(gs == g.push(seq![c]));
            assert(gs.drop_last() =~= g);
            assert forall|a: int, m: int| 0 <= a < gs.len() && 0 <= m < gs[a].len() implies target(
                #[trigger] gs[a][m],
            ) == target(gs[a][0]) by {
                if a < g.len() {
                    assert(gs[a] == g[a]);
                }
            }
            assert forall|a: int, b: int| 0 <= a < b < gs.len() implies target(#[trigger] gs[a][0])
                != target(#[trigger] gs[b][0]) by {
                if b < g.len() {
                    assert(gs[a] == g[a]);
                    assert(gs[b] == g[b]);
                } else {
                    assert(gs[a] == g[a]);
                    assert(g[a].len() > 0);
                }
            }
        }
    }
}

proof fn lemma_insert_ranked_all(s: Seq<Command>, x: Command, p: spec_fn(Command) -> bool)
    requires
        forall|i: int| 0 <= i < s.len() ==> p(#[trigger] s[i]),
        p(x),
    ensures
        forall|i: int| 0 <= i < insert_ranked(s, x).len() ==> p(#[trigger] insert_ranked(s, x)[i]),
    decreases s.len(),
{
    if s.len() > 0 && ranks_before(x, s.last()) {
        let t = s.drop_last();
        assert forall|i: int| 0 <= i < t.len() implies p(#[trigger] t[i]) by {
            assert(t[i] == s[i]);
        }
        lemma_insert_ranked_all(t, x, p);
        let q = insert_ranked(t, x);
        let r = insert_ranked(s, x);
        assert(r == q.push(s.last()));
        assert forall|i: int| 0 <= i < r.len() implies p(#[trigger] r[i]) by {
            if i < q.len() {
                assert(r[i] == q[i]);
            } else {
                assert(r[i] == s[s.len() - 1]);
            }
        }
    } else {
        let r = insert_ranked(s, x);
        assert(r == s.push(x));
        assert forall|i: int| 0 <= i < r.len() implies p(#[trigger] r[i]) by {
            if i < s.len() {
                assert(r[i] == s[i]);
            }
        }
    }
}

proof fn lemma_rank_sort_all(s: Seq<Command>, p: spec_fn(Command) -> bool)
    requires
        forall|i: int| 0 <= i < s.len() ==> p(#[trigger] s[i]),
    ensures
        forall|i: int| 0 <= i < rank_sort(s).len() ==> p(#[trigger] rank_sort(s)[i]),
    decreases s.len(),
{
    if s.len() > 0 {
        let t = s.drop_last();
        assert forall|i: int| 0 <= i < t.len() implies p(#[trigger] t[i]) by {
            assert(t[i] == s[i]);
        }
        lemma_rank_sort_all(t, p);
        lemma_insert_ranked_all(rank_sort(t), s.last(), p);
    }
}

/// Ranked commands come in order of non-increasing priority.
proof fn lemma_rank_sort_priorities(s: Seq<Command>)
    ensures
        forall|i: int, j: int|
            0 <= i < j < rank_sort(s).len() ==> (#[trigger] rank_sort(s)[i]).priority
                >= (#[trigger] rank_sort(s)[j]).priority,
    decreases s.len(),
{
    if s.len() > 0 {
        let t = rank_sort(s.drop_last());
        let x = s.last();
        lemma_rank_sort_priorities(s.drop_last());
        lemma_insert_ranked_priorities(t, x);
    }
}

proof fn lemma_insert_ranked_priorities(t: Seq<Command>, x: Command)
    requires
        forall|i: int, j: int| 0 <= i < j < t.len() ==> (#[trigger] t[i]).priority >= (#[trigger] t[j]).priority,
    ensures
        forall|i: int, j: int|
            0 <= i < j < insert_ranked(t, x).len() ==> (#[trigger] insert_ranked(t, x)[i]).priority
                >= (#[trigger] insert_ranked(t, x)[j]).priority,
    decreases t.len(),
{
    lemma_insert_ranked_len(t, x);
    let r = insert_ranked(t, x);
    if t.len() == 0 || !ranks_before(x, t.last()) {
        assert forall|i: int, j: int| 0 <= i < j < r.len() implies (#[trigger] r[i]).priority
            >= (#[trigger] r[j]).priority by {
            if j == t.len() {
                if t.len() > 0 {
                    assert(r[i] == t[i]);
                    if i < t.len() - 1 {
                        assert(t[i].priority >= t[t.len() - 1].priority);
                    }
                }
            } else {
                assert(r[i] == t[i]);
                assert(r[j] == t[j]);
            }
        }
    } else {
        let d = t.drop_last();
        let l = t.last();
        assert forall|i: int, j: int| 0 <= i < j < d.len() implies (#[trigger] d[i]).priority
            >= (#[trigger] d[j]).priority by {
            assert(d[i] == t[i]);
            assert(d[j] == t[j]);
        }
        lemma_insert_ranked_priorities(d, x);
        let b = l.priority;
        assert forall|i: int| 0 <= i < d.len() implies (#[trigger] d[i]).priority >= b by {
            assert(d[i] == t[i]);
        }
        lemma_insert_ranked_all(d, x, |c: Command| c.priority >= b);
        let q = insert_ranked(d, x);
        assert(r == q.push(l));
        assert forall|i: int, j: int| 0 <= i < j < r.len() implies (#[trigger] r[i]).priority
            >= (#[trigger] r[j]).priority by {
            assert(r[i] == q[i]);
            if j < q.len() {
                assert(r[j] == q[j]);
            } else {
                assert(r[j] == l);
                assert(q[i].priority >= b);
            }
        }
    }
}

proof fn lemma_losers_len(gs: Seq<Seq<Command>>)
    requires
        forall|g: int| 0 <= g < gs.len() ==> (#[trigger] gs[g]).len() > 0,
    ensures
        losers_of(gs).len() == total_len(gs) - gs.len(),
    decreases gs.len(),
{
    if gs.len() > 0 {
        let t = gs.drop_last();
        assert forall|g: int| 0 <= g < t.len() implies (#[trigger] t[g]).len() > 0 by {
            assert(t[g] == gs[g]);
        }
        lemma_losers_len(t);
        lemma_rank_sort_permutes(gs.last());
    }
}

/// Resolution accounts for every candidate: each one either wins its
/// target or is recorded as losing it.
pub proof fn law_resolution_conserves_commands(candidates: Seq<Command>)
    ensures
        winners_of(grouping(candidates)).len() + losers_of(grouping(candidates)).len()
            == candidates.len(),
{
    lemma_grouping_shape(candidates);
    lemma_losers_len(grouping(candidates));
}

/// No two winners of one resolution target the same device attribute.
pub proof fn law_one_winner_per_target(candidates: Seq<Command>)
    ensures
        forall|i: int, j: int|
            0 <= i < j < winners_of(grouping(candidates)).len() ==> target(
                #[trigger] winners_of(grouping(candidates))[i],
            ) != target(#[trigger] winners_of(grouping(candidates))[j]),
{
    let gs = grouping(candidates);
    lemma_grouping_shape(candidates);
    let w = winners_of(gs);
    assert forall|g: int| 0 <= g < gs.len() implies target(#[trigger] w[g]) == target(gs[g][0]) by {
        let k = target(gs[g][0]);
        let grp = gs[g];
        assert forall|m: int| 0 <= m < grp.len() implies (|c: Command| target(c) == k)(
            #[trigger] grp[m],
        ) by {
            assert(target(gs[g][m]) == target(gs[g][0]));
        }
        lemma_rank_sort_all(grp, |c: Command| target(c) == k);
        lemma_rank_sort_permutes(grp);
        assert((|c: Command| target(c) == k)(rank_sort(grp)[0]));
    }
    assert forall|i: int, j: int| 0 <= i < j < w.len() implies target(#[trigger] w[i]) != target(
        #[trigger] w[j],
    ) by {
        assert(target(w[i]) == target(gs[i][0]));
        assert(target(w[j]) == target(gs[j][0]));
    }
}

/// A command only loses to the winner of its own target, and that winner
/// has at least its priority.
pub proof fn law_loser_yields_to_higher_priority(candidates: Seq<Command>)
    ensures
        forall|i: int|
            0 <= i < losers_of(grouping(candidates)).len() ==> {
                let (w, l) = #[trigger] losers_of(grouping(candidates))[i];
                &&& target(w) == target(l)
                &&& w.priority >= l.priority
            },
{
    lemma_grouping_shape(candidates);
    lemma_losers_shape(grouping(candidates));
}

proof fn lemma_losers_shape(gs: Seq<Seq<Command>>)
    requires
        forall|g: int| 0 <= g < gs.len() ==> (#[trigger] gs[g]).len() > 0,
        forall|g: int, m: int|
            0 <= g < gs.len() && 0 <= m < gs[g].len() ==> target(#[trigger] gs[g][m]) == target(
                gs[g][0],
            ),
    ensures
        forall|i: int|
            0 <= i < losers_of(gs).len() ==> {
                let (w, l) = #[trigger] losers_of(gs)[i];
                &&& target(w) == target(l)
                &&& w.priority >= l.priority
            },
    decreases gs.len(),
{
    if gs.len() > 0 {
        let t = gs.drop_last();
        assert forall|g: int| 0 <= g < t.len() implies (#[trigger] t[g]).len() > 0 by {
            assert(t[g] == gs[g]);
        }
        assert forall|g: int, m: int| 0 <= g < t.len() && 0 <= m < t[g].len() implies target(
            #[trigger] t[g][m],
        ) == target(t[g][0]) by {
            assert(t[g] == gs[g]);
        }
        lemma_losers_shape(t);
        let grp = gs.last();
        let k = target(grp[0]);
        assert(grp == gs[gs.len() - 1]);
        assert forall|m: int| 0 <= m < grp.len() implies (|c: Command| target(c) == k)(
            #[trigger] grp[m],
        ) by {
            assert(target(gs[gs.len() - 1][m]) == target(gs[gs.len() - 1][0]));
        }
        lemma_rank_sort_all(grp, |c: Command| target(c) == k);
        lemma_rank_sort_permutes(grp);
        lemma_rank_sort_priorities(grp);
        let sorted = rank_sort(grp);
        let tail = sorted.subrange(1, sorted.len() as int).map_values(|l: Command| (sorted[0], l));
        let all = losers_of(gs);
        assert(all == losers_of(t) + tail);
        assert forall|i: int| 0 <= i < all.len() implies {
            let (w, l) = #[trigger] all[i];
            &&& target(w) == target(l)
            &&& w.priority >= l.priority
        } by {
            if i < losers_of(t).len() {
                assert(all[i] == losers_of(t)[i]);
            } else {
                let q = i - losers_of(t).len();
                assert(all[i] == tail[q]);
                assert(tail[q] == (sorted[0], sorted[q + 1]));
                assert((|c: Command| target(c) == k)(sorted[0]));
                assert((|c: Command| target(c) == k)(sorted[q + 1]));
            }
        }
    }
}


/// All commands of the groups, group after group.
pub open spec fn flatten_groups(gs: Seq<Seq<Command>>) -> Seq<Command>
    decreases gs.len(),
{
    if gs.len() == 0 {
        Seq::empty()
    } else {
        flatten_groups(gs.drop_last()) + gs.last()
    }
}

proof fn lemma_flatten_update(gs: Seq<Seq<Command>>, p: int, x: Seq<Command>)
    requires
        0 <= p < gs.len(),
    ensures
        flatten_groups(gs.update(p, x)).to_multiset().add(gs[p].to_multiset()) =~= flatten_groups(
            gs,
        ).to_multiset().add(x.to_multiset()),
    decreases gs.len(),
{
    broadcast use vstd::multiset::group_multiset_axioms;
    let t = gs.update(p, x);
    let d = gs.drop_last();
    vstd::seq_lib::lemma_multiset_commutative(flatten_groups(d), gs.last());
    let lhs = flatten_groups(t).to_multiset().add(gs[p].to_multiset());
    let rhs = flatten_groups(gs).to_multiset().add(x.to_multiset());
    assert(flatten_groups(gs) == flatten_groups(d) + gs.last());
    if p == gs.len() - 1 {
        assert(t.drop_last() =~= d);
        assert(flatten_groups(t) == flatten_groups(d) + x);
        vstd::seq_lib::lemma_multiset_commutative(flatten_groups(d), x);
        assert forall|v: Command| #[trigger] lhs.count(v) == rhs.count(v) by {}
    } else {
        assert(t.drop_last() =~= d.update(p, x));
        assert(t.last() == gs.last());
        assert(d[p] == gs[p]);
        lemma_flatten_update(d, p, x);
        assert(flatten_groups(t) == flatten_groups(d.update(p, x)) + gs.last());
        vstd::seq_lib::lemma_multiset_commutative(flatten_groups(d.update(p, x)), gs.last());
        let ih_l = flatten_groups(d.update(p, x)).to_multiset().add(d[p].to_multiset());
        let ih_r = flatten_groups(d).to_multiset().add(x.to_multiset());
        assert forall|v: Command| #[trigger] lhs.count(v) == rhs.count(v) by {
            assert(ih_l.count(v) == ih_r.count(v));
        }
    }
    assert(lhs =~= rhs);
}

/// Grouping keeps every command, no more and no fewer.
proof fn lemma_grouping_keeps_commands(s: Seq<Command>)
    ensures
        flatten_groups(grouping(s)).to_multiset() =~= s.to_multiset(),
    decreases s.len(),
{
    broadcast use vstd::multiset::group_multiset_axioms;
    broadcast use vstd::seq_lib::group_to_multiset_ensures;
    if s.len() > 0 {
        let d = s.drop_last();
        let c = s.last();
        let g = grouping(d);
        lemma_grouping_keeps_commands(d);
        lemma_group_pos(g, target(c));
        let p = group_pos(g, target(c));
        assert(s =~= d.push(c));
        if p >= 0 {
            lemma_flatten_update(g, p, g[p].push(c));
            let a = flatten_groups(grouping(s)).to_multiset();
            let b = g[p].to_multiset();
            let m = flatten_groups(g).to_multiset();
            assert(a.add(b) =~= m.add(b.insert(c)));
            assert forall|v: Command| #[trigger] a.count(v) == m.insert(c).count(v) by {
                assert(a.add(b).count(v) == m.add(b.insert(c)).count(v));
            }
        } else {
            assert(grouping(s).drop_last() =~= g);
            vstd::seq_lib::lemma_multiset_commutative(flatten_groups(g), seq![c]);
            assert(seq![c] =~= Seq::<Command>::empty().push(c));
        }
    }
}

/// What the losers of a resolution are, as commands.
pub open spec fn losing_commands(candidates: Seq<Command>) -> Seq<Command> {
    losers_of(grouping(candidates)).map_values(|p: (Command, Command)| p.1)
}

proof fn lemma_outcome_keeps_groups(gs: Seq<Seq<Command>>)
    requires
        forall|g: int| 0 <= g < gs.len() ==> (#[trigger] gs[g]).len() > 0,
    ensures
        (winners_of(gs) + losers_of(gs).map_values(|p: (Command, Command)| p.1)).to_multiset()
            =~= flatten_groups(gs).to_multiset(),
    decreases gs.len(),
{
    broadcast use vstd::multiset::group_multiset_axioms;
    broadcast use vstd::seq_lib::group_to_multiset_ensures;
    if gs.len() > 0 {
        let d = gs.drop_last();
        assert forall|g: int| 0 <= g < d.len() implies (#[trigger] d[g]).len() > 0 by {
            assert(d[g] == gs[g]);
        }
        lemma_outcome_keeps_groups(d);
        let grp = gs.last();
        assert(grp == gs[gs.len() - 1]);
        lemma_rank_sort_permutes(grp);
        let sorted = rank_sort(grp);
        let tail = sorted.subrange(1, sorted.len() as int);
        let f = |p: (Command, Command)| p.1;
        let pairs = tail.map_values(|l: Command| (sorted[0], l));
        assert(losers_of(gs) == losers_of(d) + pairs);
        assert((losers_of(d) + pairs).map_values(f) =~= losers_of(d).map_values(f) + pairs.map_values(f));
        assert(pairs.map_values(f) =~= tail);
        assert(winners_of(gs) =~= winners_of(d).push(sorted[0]));
        assert(sorted =~= seq![sorted[0]] + tail);
        let wd = winners_of(d);
        let ld = losers_of(d).map_values(f);
        vstd::seq_lib::lemma_multiset_commutative(wd.push(sorted[0]), ld + tail);
        vstd::seq_lib::lemma_multiset_commutative(ld, tail);
        vstd::seq_lib::lemma_multiset_commutative(wd, ld);
        vstd::seq_lib::lemma_multiset_commutative(seq![sorted[0]], tail);
        vstd::seq_lib::lemma_multiset_commutative(flatten_groups(d), grp);
        assert(seq![sorted[0]] =~= Seq::<Command>::empty().push(sorted[0]));
        assert(winners_of(gs) + losers_of(gs).map_values(f) =~= wd.push(sorted[0]) + (ld + tail));
        assert(flatten_groups(gs) == flatten_groups(d) + grp);
    }
}

/// Resolution accounts for every candidate exactly once: the winners and
/// the losers together are the candidates.
pub proof fn law_every_candidate_wins_or_loses(candidates: Seq<Command>)
    ensures
        (winners_of(grouping(candidates)) + losing_commands(candidates)).to_multiset()
            =~= candidates.to_multiset(),
{
    lemma_grouping_shape(candidates);
    lemma_outcome_keeps_groups(grouping(candidates));
    lemma_grouping_keeps_commands(candidates);
}

// ── Order independence ───────────────────────────────────────

/// Each command ranks at or after the ones before it.
pub open spec fn rank_sorted(t: Seq<Command>) -> bool {
    forall|i: int, j: int| 0 <= i < j < t.len() ==> !ranks_before(#[trigger] t[j], #[trigger] t[i])
}

/// `c` is outranked by no candidate of its target.
pub open spec fn is_top(s: Seq<Command>, c: Command) -> bool {
    forall|y: Command| s.contains(y) && target(y) == target(c) ==> !#[trigger] ranks_before(y, c)
}

/// No two different candidates share an id.
pub open spec fn ids_unique(s: Seq<Command>) -> bool {
    forall|x: Command, y: Command| s.contains(x) && s.contains(y) && x.id@ == y.id@ ==> x == y
}

/// Not ranking before is transitive.
proof fn lemma_not_before_transitive(x: Command, y: Command, z: Command)
    requires
        !ranks_before(x, y),
        !ranks_before(y, z),
    ensures
        !ranks_before(x, z),
{
    if ranks_before(x, z) {
        assert(x.priority == y.priority && y.priority == z.priority);
        lemma_seq_lt_asymmetric(x.id@, z.id@);
        if x.id@ != y.id@ {
            lemma_seq_lt_total(x.id@, y.id@);
        }
        if y.id@ != z.id@ {
            lemma_seq_lt_total(y.id@, z.id@);
        }
        if x.id@ != y.id@ && y.id@ != z.id@ {
            lemma_seq_lt_transitive(z.id@, y.id@, x.id@);
        }
    }
}

/// Two commands neither of which ranks before the other have the same
/// priority and id.
proof fn lemma_not_before_both(x: Command, y: Command)
    requires
        !ranks_before(x, y),
        !ranks_before(y, x),
    ensures
        x.priority == y.priority,
        x.id@ == y.id@,
{
    if x.id@ != y.id@ {
        lemma_seq_lt_total(x.id@, y.id@);
    }
}

proof fn lemma_insert_ranked_sorted(t: Seq<Command>, x: Command)
    requires
        rank_sorted(t),
    ensures
        rank_sorted(insert_ranked(t, x)),
    decreases t.len(),
{
    lemma_insert_ranked_len(t, x);
    let r = insert_ranked(t, x);
    if t.len() == 0 || !ranks_before(x, t.last()) {
        assert(r == t.push(x));
        assert forall|i: int, j: int| 0 <= i < j < r.len() implies !ranks_before(
            #[trigger] r[j],
            #[trigger] r[i],
        ) by {
            assert(r[i] == t[i]);
            if j == t.len() {
                if i < t.len() - 1 {
                    lemma_not_before_transitive(x, t[t.len() - 1], t[i]);
                }
            } else {
                assert(r[j] == t[j]);
            }
        }
    } else {
        let d = t.drop_last();
        let l = t.last();
        assert forall|i: int, j: int| 0 <= i < j < d.len() implies !ranks_before(
            #[trigger] d[j],
            #[trigger] d[i],
        ) by {
            assert(d[i] == t[i]);
            assert(d[j] == t[j]);
        }
        lemma_insert_ranked_sorted(d, x);
        assert forall|i: int| 0 <= i < d.len() implies (|c: Command| !ranks_before(l, c))(
            #[trigger] d[i],
        ) by {
            assert(d[i] == t[i]);
            assert(l == t[t.len() - 1]);
        }
        lemma_seq_lt_asymmetric(x.id@, l.id@);
        lemma_insert_ranked_all(d, x, |c: Command| !ranks_before(l, c));
        let q = insert_ranked(d, x);
        assert(r == q.push(l));
        assert forall|i: int, j: int| 0 <= i < j < r.len() implies !ranks_before(
            #[trigger] r[j],
            #[trigger] r[i],
        ) by {
            assert(r[i] == q[i]);
            if j < q.len() {
                assert(r[j] == q[j]);
            } else {
                assert((|c: Command| !ranks_before(l, c))(q[i]));
            }
        }
    }
}

proof fn lemma_rank_sort_sorted(s: Seq<Command>)
    ensures
        rank_sorted(rank_sort(s)),
    decreases s.len(),
{
    if s.len() > 0 {
        lemma_rank_sort_sorted(s.drop_last());
        lemma_insert_ranked_sorted(rank_sort(s.drop_last()), s.last());
    }
}

/// Sequences with the same multiset have the same members.
proof fn lemma_same_members(a: Seq<Command>, b: Seq<Command>)
    requires
        a.to_multiset() == b.to_multiset(),
    ensures
        forall|x: Command| a.contains(x) <==> b.contains(x),
{
    assert forall|x: Command| a.contains(x) <==> b.contains(x) by {
        vstd::seq_lib::to_multiset_contains(a, x);
        vstd::seq_lib::to_multiset_contains(b, x);
    }
}

/// Every command of a group is a candidate.
proof fn lemma_grouping_in(s: Seq<Command>)
    ensures
        forall|g: int, m: int|
            0 <= g < grouping(s).len() && 0 <= m < grouping(s)[g].len() ==> s.contains(
                #[trigger] grouping(s)[g][m],
            ),
    decreases s.len(),
{
    if s.len() > 0 {
        let d = s.drop_last();
        let c = s.last();
        let g = grouping(d);
        lemma_grouping_in(d);
        lemma_group_pos(g, target(c));
        let p = group_pos(g, target(c));
        let gs = grouping(s);
        assert forall|a: int, m: int| 0 <= a < gs.len() && 0 <= m < gs[a].len() implies s.contains(
            #[trigger] gs[a][m],
        ) by {
            if a < g.len() && m < g[a].len() {
                assert(gs[a][m] == g[a][m]);
                let i = choose|i: int| 0 <= i < d.len() && d[i] == g[a][m];
                assert(s[i] == d[i]);
            } else {
                assert(gs[a][m] == c);
                assert(s[s.len() - 1] == c);
            }
        }
    }
}

/// A candidate lies in the group of its target, which `group_pos` finds.
proof fn lemma_grouping_member(s: Seq<Command>, c: Command)
    requires
        s.contains(c),
    ensures
        0 <= group_pos(grouping(s), target(c)) < grouping(s).len(),
        grouping(s)[group_pos(grouping(s), target(c))].contains(c),
    decreases s.len(),
{
    let d = s.drop_last();
    let c0 = s.last();
    let g = grouping(d);
    let gs = grouping(s);
    lemma_grouping_shape(s);
    lemma_grouping_shape(d);
    lemma_group_pos(g, target(c0));
    let p = group_pos(g, target(c0));
    // The index of the group that holds `c` in `gs`.
    let j: int = if d.contains(c) {
        lemma_grouping_member(d, c);
        group_pos(g, target(c))
    } else if p >= 0 {
        p
    } else {
        g.len() as int
    };
    if d.contains(c) {
        lemma_group_pos(g, target(c));
        let q = group_pos(g, target(c));
        let i = choose|i: int| 0 <= i < g[q].len() && g[q][i] == c;
        if p == q {
            assert(gs[q] == g[q].push(c0));
            assert(gs[q][i] == c);
        } else if p >= 0 {
            assert(gs[q] == g[q]);
        } else {
            assert(gs[q] == g[q]);
        }
        assert(gs[j][0] == g[q][0]);
        assert(target(g[q][i]) == target(g[q][0]));
    } else {
        let i = choose|i: int| 0 <= i < s.len() && s[i] == c;
        if i < d.len() {
            assert(d[i] == c);
        }
        assert(c == c0);
        if p >= 0 {
            assert(gs[p] == g[p].push(c0));
            assert(gs[p][g[p].len() as int] == c);
            assert(gs[p][0] == g[p][0]);
        } else {
            assert(gs[j] == seq![c0]);
            assert(gs[j][0] == c);
        }
    }
    assert(target(gs[j][0]) == target(c));
    assert forall|a: int| j < a < gs.len() implies target(#[trigger] gs[a][0]) != target(c) by {
        assert(target(gs[j][0]) != target(gs[a][0]));
    }
    lemma_group_pos_last(gs, target(c), j);
}

/// Candidates without repeats give groups without repeats.
proof fn lemma_grouping_no_duplicates(s: Seq<Command>)
    requires
        s.no_duplicates(),
    ensures
        forall|g: int| 0 <= g < grouping(s).len() ==> (#[trigger] grouping(s)[g]).no_duplicates(),
    decreases s.len(),
{
    if s.len() > 0 {
        let d = s.drop_last();
        let c = s.last();
        let g = grouping(d);
        let gs = grouping(s);
        assert(d.no_duplicates()) by {
            assert forall|i: int, j: int| 0 <= i < d.len() && 0 <= j < d.len() && i != j implies d[i]
                != d[j] by {
                assert(d[i] == s[i] && d[j] == s[j]);
            }
        }
        lemma_grouping_no_duplicates(d);
        lemma_grouping_in(d);
        lemma_group_pos(g, target(c));
        let p = group_pos(g, target(c));
        assert(!d.contains(c)) by {
            if d.contains(c) {
                let i = choose|i: int| 0 <= i < d.len() && d[i] == c;
                assert(s[i] == s[s.len() - 1]);
            }
        }
        assert forall|a: int| 0 <= a < gs.len() implies (#[trigger] gs[a]).no_duplicates() by {
            if a == p && p >= 0 {
                let t = g[p].push(c);
                assert(gs[a] == t);
                assert forall|i: int, k: int| 0 <= i < t.len() && 0 <= k < t.len() && i != k implies t[i]
                    != t[k] by {
                    if i < g[p].len() && k < g[p].len() {
                        assert(t[i] == g[p][i] && t[k] == g[p][k]);
                    } else if i < g[p].len() {
                        assert(t[i] == g[p][i]);
                        assert(d.contains(g[p][i]));
                    } else if k < g[p].len() {
                        assert(t[k] == g[p][k]);
                        assert(d.contains(g[p][k]));
                    }
                }
            } else if a < g.len() {
                assert(gs[a] == g[a]);
            } else {
                assert(gs[a] == seq![c]);
            }
        }
    }
}

/// The winner of each group is a candidate outranked by no candidate of
/// its target.
proof fn lemma_group_winner_top(s: Seq<Command>, g: int)
    requires
        0 <= g < grouping(s).len(),
    ensures
        s.contains(rank_sort(grouping(s)[g])[0]),
        is_top(s, rank_sort(grouping(s)[g])[0]),
        target(rank_sort(grouping(s)[g])[0]) == target(grouping(s)[g][0]),
        grouping(s)[g].contains(rank_sort(grouping(s)[g])[0]),
{
    let gs = grouping(s);
    let grp = gs[g];
    let r = rank_sort(grp);
    lemma_grouping_shape(s);
    lemma_grouping_in(s);
    lemma_rank_sort_permutes(grp);
    lemma_rank_sort_sorted(grp);
    lemma_same_members(r, grp);
    let w = r[0];
    assert(r.contains(w));
    let m = choose|m: int| 0 <= m < grp.len() && grp[m] == w;
    assert(s.contains(gs[g][m]));
    assert(target(gs[g][m]) == target(gs[g][0]));
    assert forall|y: Command| s.contains(y) && target(y) == target(w) implies !#[trigger] ranks_before(
        y,
        w,
    ) by {
        lemma_grouping_member(s, y);
        let j = group_pos(gs, target(y));
        let my = choose|my: int| 0 <= my < gs[j].len() && gs[j][my] == y;
        assert(target(gs[j][my]) == target(gs[j][0]));
        if j != g {
            if j < g {
                assert(target(gs[j][0]) != target(gs[g][0]));
            } else {
                assert(target(gs[g][0]) != target(gs[j][0]));
            }
        }
        assert(grp.contains(y));
        assert(r.contains(y));
        let q = choose|q: int| 0 <= q < r.len() && r[q] == y;
        if q == 0 {
            lemma_seq_lt_asymmetric(w.id@, w.id@);
        } else {
            assert(!ranks_before(r[q], r[0]));
        }
    }
}

/// The winners are exactly the candidates that no candidate of their
/// target outranks.
proof fn lemma_winners_char(s: Seq<Command>)
    requires
        ids_unique(s),
    ensures
        forall|c: Command| #[trigger] winners_of(grouping(s)).contains(c) <==> (s.contains(c) && is_top(s, c)),
{
    let gs = grouping(s);
    let ws = winners_of(gs);
    lemma_grouping_shape(s);
    assert forall|c: Command| #[trigger] ws.contains(c) <==> (s.contains(c) && is_top(s, c)) by {
        if ws.contains(c) {
            let g = choose|g: int| 0 <= g < ws.len() && ws[g] == c;
            lemma_group_winner_top(s, g);
        }
        if s.contains(c) && is_top(s, c) {
            lemma_grouping_member(s, c);
            let j = group_pos(gs, target(c));
            lemma_group_winner_top(s, j);
            let w = rank_sort(gs[j])[0];
            let m = choose|m: int| 0 <= m < gs[j].len() && gs[j][m] == c;
            assert(target(gs[j][m]) == target(gs[j][0]));
            assert(!ranks_before(c, w));
            assert(!ranks_before(w, c));
            lemma_not_before_both(c, w);
            assert(ws[j] == w);
        }
    }
}

/// The pair a group's `k`-th ranked command forms with its winner.
pub open spec fn loser_pair(gs: Seq<Seq<Command>>, g: int, k: int) -> (Command, Command) {
    (rank_sort(gs[g])[0], rank_sort(gs[g])[k])
}

proof fn lemma_losers_contains(gs: Seq<Seq<Command>>, pr: (Command, Command))
    requires
        forall|g: int| 0 <= g < gs.len() ==> (#[trigger] gs[g]).len() > 0,
    ensures
        losers_of(gs).contains(pr) <==> exists|g: int, k: int|
            0 <= g < gs.len() && 1 <= k < rank_sort(gs[g]).len() && pr == #[trigger] loser_pair(gs, g, k),
    decreases gs.len(),
{
    if gs.len() > 0 {
        let d = gs.drop_last();
        assert forall|g: int| 0 <= g < d.len() implies (#[trigger] d[g]).len() > 0 by {
            assert(d[g] == gs[g]);
        }
        lemma_losers_contains(d, pr);
        let last = gs.len() - 1;
        assert(gs[last].len() > 0);
        lemma_rank_sort_permutes(gs[last]);
        let sorted = rank_sort(gs.last());
        let tail = sorted.subrange(1, sorted.len() as int).map_values(|l: Command| (sorted[0], l));
        let ld = losers_of(d);
        let all = losers_of(gs);
        assert(all == ld + tail);
        assert(gs.last() == gs[last]);
        if all.contains(pr) {
            let i = choose|i: int| 0 <= i < all.len() && all[i] == pr;
            if i < ld.len() {
                assert(ld[i] == pr);
                let (g, k) = choose|g: int, k: int|
                    0 <= g < d.len() && 1 <= k < rank_sort(d[g]).len() && pr == #[trigger] loser_pair(d, g, k);
                assert(d[g] == gs[g]);
                assert(loser_pair(gs, g, k) == pr);
                assert(1 <= k < rank_sort(gs[g]).len());
            } else {
                let q = i - ld.len();
                assert(tail[q] == pr);
                assert(sorted == rank_sort(gs[last]));
                assert(sorted.subrange(1, sorted.len() as int)[q] == sorted[q + 1]);
                assert(tail[q] == (sorted[0], sorted[q + 1]));
                assert(loser_pair(gs, last, q + 1) == pr);
                assert(1 <= q + 1 < rank_sort(gs[last]).len());
            }
        }
        if exists|g: int, k: int|
            0 <= g < gs.len() && 1 <= k < rank_sort(gs[g]).len() && pr == #[trigger] loser_pair(gs, g, k) {
            let (g, k) = choose|g: int, k: int|
                0 <= g < gs.len() && 1 <= k < rank_sort(gs[g]).len() && pr == #[trigger] loser_pair(gs, g, k);
            if g < last {
                assert(d[g] == gs[g]);
                assert(loser_pair(d, g, k) == pr);
                let i = choose|i: int| 0 <= i < ld.len() && ld[i] == pr;
                assert(all[i] == pr);
            } else {
                assert(sorted == rank_sort(gs[last]));
                assert(sorted.subrange(1, sorted.len() as int)[k - 1] == sorted[k]);
                assert(tail[k - 1] == pr);
                assert(all[ld.len() + k - 1] == pr);
            }
        }
    } else {
        assert(losers_of(gs) =~= Seq::<(Command, Command)>::empty());
    }
}

/// The losers are exactly the pairs of a candidate and the different
/// candidate of the same target that no candidate of that target outranks.
proof fn lemma_losers_char(s: Seq<Command>)
    requires
        ids_unique(s),
        s.no_duplicates(),
    ensures
        forall|w: Command, l: Command| #[trigger] losers_of(grouping(s)).contains((w, l)) <==> (s.contains(w)
            && s.contains(l) && target(l) == target(w) && is_top(s, w) && l != w),
{
    let gs = grouping(s);
    lemma_grouping_shape(s);
    lemma_grouping_in(s);
    lemma_grouping_no_duplicates(s);
    assert forall|w: Command, l: Command| #[trigger] losers_of(gs).contains((w, l)) <==> (s.contains(w)
        && s.contains(l) && target(l) == target(w) && is_top(s, w) && l != w) by {
        lemma_losers_contains(gs, (w, l));
        if losers_of(gs).contains((w, l)) {
            let (g, k) = choose|g: int, k: int|
                0 <= g < gs.len() && 1 <= k < rank_sort(gs[g]).len() && (w, l) == #[trigger] loser_pair(gs, g, k);
            let grp = gs[g];
            let r = rank_sort(grp);
            lemma_group_winner_top(s, g);
            lemma_rank_sort_permutes(grp);
            lemma_same_members(r, grp);
            assert(r.contains(l));
            let m = choose|m: int| 0 <= m < grp.len() && grp[m] == l;
            assert(s.contains(gs[g][m]));
            assert(target(gs[g][m]) == target(gs[g][0]));
            grp.lemma_multiset_has_no_duplicates();
            r.lemma_multiset_has_no_duplicates_conv();
            assert(r[0] != r[k]);
        }
        if s.contains(w) && s.contains(l) && target(l) == target(w) && is_top(s, w) && l != w {
            lemma_grouping_member(s, l);
            lemma_grouping_member(s, w);
            let j = group_pos(gs, target(l));
            let grp = gs[j];
            let r = rank_sort(grp);
            lemma_group_winner_top(s, j);
            let v = r[0];
            let m = choose|m: int| 0 <= m < grp.len() && grp[m] == l;
            assert(target(gs[j][m]) == target(gs[j][0]));
            assert(!ranks_before(w, v));
            assert(!ranks_before(v, w));
            lemma_not_before_both(w, v);
            lemma_rank_sort_permutes(grp);
            lemma_same_members(r, grp);
            assert(grp.contains(l));
            assert(r.contains(l));
            let k = choose|k: int| 0 <= k < r.len() && r[k] == l;
            assert(loser_pair(gs, j, k) == (w, l));
        }
    }
}

/// Why `loser` lost to `winner`: a tie on priority or a lower one.
pub open spec fn reason_of(winner: Command, loser: Command) -> ConflictReason {
    if loser.priority == winner.priority {
        ConflictReason::PriorityTie
    } else {
        ConflictReason::LowerPriority
    }
}

/// The ids of the winners.
pub open spec fn winner_ids(candidates: Seq<Command>) -> Set<Seq<char>> {
    winners_of(grouping(candidates)).map_values(|c: Command| c.id@).to_set()
}

/// The conflicts as (winning id, losing id, reason).
pub open spec fn conflict_triples(candidates: Seq<Command>) -> Set<(Seq<char>, Seq<char>, ConflictReason)> {
    losers_of(grouping(candidates)).map_values(
        |p: (Command, Command)| (p.0.id@, p.1.id@, reason_of(p.0, p.1)),
    ).to_set()
}

/// The law below read through what `resolve` reports: the winners' ids and
/// the conflict records' (winning id, losing id, reason) do not depend on
/// the order of the candidates.
pub proof fn law_resolution_ids_ignore_candidate_order(a: Seq<Command>, b: Seq<Command>)
    requires
        forall|i: int, j: int| 0 <= i < j < a.len() ==> a[i].id@ != a[j].id@,
        a.to_multiset() == b.to_multiset(),
    ensures
        winner_ids(a) == winner_ids(b),
        conflict_triples(a) == conflict_triples(b),
{
    law_resolution_ignores_candidate_order(a, b);
    let wa = winners_of(grouping(a));
    let wb = winners_of(grouping(b));
    let fw = |c: Command| c.id@;
    assert forall|x: Seq<char>| wa.map_values(fw).contains(x) implies wb.map_values(fw).contains(x) by {
        let i = choose|i: int| 0 <= i < wa.map_values(fw).len() && wa.map_values(fw)[i] == x;
        assert(wa.to_set().contains(wa[i]));
        assert(wb.contains(wa[i]));
        let j = choose|j: int| 0 <= j < wb.len() && wb[j] == wa[i];
        assert(wb.map_values(fw)[j] == x);
    }
    assert forall|x: Seq<char>| wb.map_values(fw).contains(x) implies wa.map_values(fw).contains(x) by {
        let i = choose|i: int| 0 <= i < wb.map_values(fw).len() && wb.map_values(fw)[i] == x;
        assert(wb.to_set().contains(wb[i]));
        assert(wa.contains(wb[i]));
        let j = choose|j: int| 0 <= j < wa.len() && wa[j] == wb[i];
        assert(wa.map_values(fw)[j] == x);
    }
    assert(winner_ids(a) =~= winner_ids(b));
    let la = losers_of(grouping(a));
    let lb = losers_of(grouping(b));
    let fl = |p: (Command, Command)| (p.0.id@, p.1.id@, reason_of(p.0, p.1));
    assert forall|x: (Seq<char>, Seq<char>, ConflictReason)| la.map_values(fl).contains(x) implies lb.map_values(
        fl,
    ).contains(x) by {
        let i = choose|i: int| 0 <= i < la.map_values(fl).len() && la.map_values(fl)[i] == x;
        assert(la.to_set().contains(la[i]));
        assert(lb.contains(la[i]));
        let j = choose|j: int| 0 <= j < lb.len() && lb[j] == la[i];
        assert(lb.map_values(fl)[j] == x);
    }
    assert forall|x: (Seq<char>, Seq<char>, ConflictReason)| lb.map_values(fl).contains(x) implies la.map_values(
        fl,
    ).contains(x) by {
        let i = choose|i: int| 0 <= i < lb.map_values(fl).len() && lb.map_values(fl)[i] == x;
        assert(lb.to_set().contains(lb[i]));
        assert(la.contains(lb[i]));
        let j = choose|j: int| 0 <= j < la.len() && la[j] == lb[i];
        assert(la.map_values(fl)[j] == x);
    }
    assert(conflict_triples(a) =~= conflict_triples(b));
}

/// Resolution does not depend on the order of the candidates: for
/// candidates with distinct ids, any reordering of them gives the same
/// winners and the same (winner, loser) pairs, and so the same conflict
/// records.
pub proof fn law_resolution_ignores_candidate_order(a: Seq<Command>, b: Seq<Command>)
    requires
        forall|i: int, j: int| 0 <= i < j < a.len() ==> a[i].id@ != a[j].id@,
        a.to_multiset() == b.to_multiset(),
    ensures
        winners_of(grouping(a)).to_set() == winners_of(grouping(b)).to_set(),
        losers_of(grouping(a)).to_set() == losers_of(grouping(b)).to_set(),
{
    lemma_same_members(a, b);
    assert(ids_unique(a)) by {
        assert forall|x: Command, y: Command| a.contains(x) && a.contains(y) && x.id@ == y.id@ implies x
            == y by {
            let i = choose|i: int| 0 <= i < a.len() && a[i] == x;
            let j = choose|j: int| 0 <= j < a.len() && a[j] == y;
            if i < j {
                assert(a[i].id@ != a[j].id@);
            } else if j < i {
                assert(a[j].id@ != a[i].id@);
            }
        }
    }
    assert(a.no_duplicates()) by {
        assert forall|i: int, j: int| 0 <= i < a.len() && 0 <= j < a.len() && i != j implies a[i] != a[j] by {
            if i < j {
                assert(a[i].id@ != a[j].id@);
            } else {
                assert(a[j].id@ != a[i].id@);
            }
        }
    }
    a.lemma_multiset_has_no_duplicates();
    b.lemma_multiset_has_no_duplicates_conv();
    assert(ids_unique(b));
    lemma_winners_char(a);
    lemma_winners_char(b);
    lemma_losers_char(a);
    lemma_losers_char(b);
    assert forall|c: Command| is_top(a, c) == is_top(b, c) by {}
    assert(winners_of(grouping(a)).to_set() =~= winners_of(grouping(b)).to_set());
    assert forall|pr: (Command, Command)| losers_of(grouping(a)).contains(pr) == losers_of(grouping(b)).contains(pr) by {
        let (w, l) = pr;
        assert(losers_of(grouping(a)).contains((w, l)) == losers_of(grouping(b)).contains((w, l)));
    }
    assert(losers_of(grouping(a)).to_set() =~= losers_of(grouping(b)).to_set());
}

} // verus!
