//! Routing rules at a junction: which edge may be left by which other edge.
//! Edges are named by their index in the graph.

use vstd::prelude::*;

verus! {

/// A rule for travelling from one edge to another through a junction.
#[derive(Debug, Clone, Copy, PartialEq, Eq, Structural)]
pub struct RoutingRule {
    pub from_edge: usize,
    pub to_edge: usize,
    pub allowed: bool,
}

/// The routing part of a junction: its name and its rules.
#[derive(Debug, Clone)]
pub struct Junction {
    pub name: Option<String>,
    pub routing_rules: Vec<RoutingRule>,
}

/// The rule is about the move `from` -> `to`.
pub open spec fn rule_matches(r: RoutingRule, from: usize, to: usize) -> bool {
    r.from_edge == from && r.to_edge == to
}

/// Index of the first rule about `from` -> `to` at or after `start`.
pub open spec fn first_rule_from(rules: Seq<RoutingRule>, from: usize, to: usize, start: int) -> Option<int>
    decreases rules.len() - start,
{
    if start < 0 || start >= rules.len() {
        None
    } else if rule_matches(rules[start], from, to) {
        Some(start)
    } else {
        first_rule_from(rules, from, to, start + 1)
    }
}

/// Index of the first rule about `from` -> `to`.
pub open spec fn first_rule(rules: Seq<RoutingRule>, from: usize, to: usize) -> Option<int> {
    first_rule_from(rules, from, to, 0)
}

/// Moving from an edge onto itself is never allowed; otherwise the first rule
/// about the move decides, and without one the move is allowed.
pub open spec fn routing_allowed(rules: Seq<RoutingRule>, from: usize, to: usize) -> bool {
    from != to && match first_rule(rules, from, to) {
        Some(i) => rules[i].allowed,
        None => true,
    }
}

/// The rules after setting `from` -> `to` to `allowed`: the first rule about
/// the move is updated, or a rule is appended; nothing changes for a move
/// from an edge onto itself.
pub open spec fn rules_after_set(rules: Seq<RoutingRule>, from: usize, to: usize, allowed: bool) -> Seq<RoutingRule> {
    if from == to {
        rules
    } else {
        match first_rule(rules, from, to) {
            Some(i) => rules.update(i, RoutingRule { from_edge: from, to_edge: to, allowed }),
            None => rules.push(RoutingRule { from_edge: from, to_edge: to, allowed }),
        }
    }
}

/// Rules that are not about `from` -> `to`.
pub open spec fn keeps_rule(from: usize, to: usize) -> spec_fn(RoutingRule) -> bool {
    |r: RoutingRule| !rule_matches(r, from, to)
}

/// The rules after removing every rule about `from` -> `to`.
pub open spec fn rules_after_remove(rules: Seq<RoutingRule>, from: usize, to: usize) -> Seq<RoutingRule> {
    rules.filter(keeps_rule(from, to))
}

/// Edges `to` (in the given order) that may be taken after `from`.
pub open spec fn allowed_after(rules: Seq<RoutingRule>, from: usize) -> spec_fn(usize) -> bool {
    |to: usize| routing_allowed(rules, from, to)
}

proof fn lemma_first_rule_none(rules: Seq<RoutingRule>, from: usize, to: usize, start: int)
    requires
        0 <= start <= rules.len(),
        forall|j: int| start <= j < rules.len() ==> !rule_matches(#[trigger] rules[j], from, to),
    ensures
        first_rule_from(rules, from, to, start) is None,
    decreases rules.len() - start,
{
    if start < rules.len() {
        lemma_first_rule_none(rules, from, to, start + 1);
    }
}

proof fn lemma_first_rule_found(rules: Seq<RoutingRule>, from: usize, to: usize, start: int)
    requires
        0 <= start <= rules.len(),
        first_rule_from(rules, from, to, start) is Some,
    ensures
        ({
            let i = first_rule_from(rules, from, to, start)->0;
            &&& start <= i < rules.len()
            &&& rule_matches(rules[i], from, to)
            &&& forall|j: int| start <= j < i ==> !rule_matches(#[trigger] rules[j], from, to)
        }),
    decreases rules.len() - start,
{
    if start < rules.len() && !rule_matches(rules[start], from, to) {
        lemma_first_rule_found(rules, from, to, start + 1);
    }
}

/// The first rule is the one found by scanning from the front.
proof fn lemma_first_rule_at(rules: Seq<RoutingRule>, from: usize, to: usize, i: int)
    requires
        0 <= i < rules.len(),
        rule_matches(rules[i], from, to),
        forall|j: int| 0 <= j < i ==> !rule_matches(#[trigger] rules[j], from, to),
    ensures
        first_rule(rules, from, to) == Some(i),
{
    lemma_first_rule_scan(rules, from, to, 0, i);
}

proof fn lemma_first_rule_scan(rules: Seq<RoutingRule>, from: usize, to: usize, start: int, i: int)
    requires
        0 <= start <= i < rules.len(),
        rule_matches(rules[i], from, to),
        forall|j: int| start <= j < i ==> !rule_matches(#[trigger] rules[j], from, to),
    ensures
        first_rule_from(rules, from, to, start) == Some(i),
    decreases i - start,
{
    if start < i {
        lemma_first_rule_scan(rules, from, to, start + 1, i);
    }
}

fn find_rule(rules: &Vec<RoutingRule>, from: usize, to: usize) -> (r: Option<usize>)
    ensures
        match r {
            Some(i) => i < rules@.len() && first_rule(rules@, from, to) == Some(i as int),
            None => first_rule(rules@, from, to) is None,
        },
{
    let mut i: usize = 0;
    while i < rules.len()
        invariant
            i <= rules@.len(),
            forall|j: int| 0 <= j < i ==> !rule_matches(#[trigger] rules@[j], from, to),
        decreases rules.len() - i,
    {
        if rules[i].from_edge == from && rules[i].to_edge == to {
            proof {
                lemma_first_rule_at(rules@, from, to, i as int);
            }
            return Some(i);
        }
        i = i + 1;
    }
    proof {
        lemma_first_rule_none(rules@, from, to, 0);
    }
    None
}

impl Junction {
    /// Whether travelling from `from_edge` to `to_edge` is allowed: never onto
    /// the same edge, otherwise as the first matching rule says, and allowed
    /// when no rule matches.
    pub fn is_routing_allowed(&self, from_edge: usize, to_edge: usize) -> (r: bool)
        ensures
            r == routing_allowed(self.routing_rules@, from_edge, to_edge),
    {
        if from_edge == to_edge {
            return false;
        }
        match find_rule(&self.routing_rules, from_edge, to_edge) {
            Some(i) => self.routing_rules[i].allowed,
            None => true,
        }
    }

    /// Add or update the rule for `from_edge` -> `to_edge` (ignored when both
    /// are the same edge).
    pub fn set_routing_rule(&mut self, from_edge: usize, to_edge: usize, allowed: bool)
        ensures
            final(self).name == old(self).name,
            final(self).routing_rules@ == rules_after_set(old(self).routing_rules@, from_edge, to_edge, allowed),
    {
        if from_edge == to_edge {
            return;
        }
        match find_rule(&self.routing_rules, from_edge, to_edge) {
            Some(i) => {
                self.routing_rules.set(i, RoutingRule { from_edge, to_edge, allowed });
            },
            None => {
                self.routing_rules.push(RoutingRule { from_edge, to_edge, allowed });
            },
        }
    }

    /// Remove every rule for `from_edge` -> `to_edge`, returning that move to
    /// the default.
    pub fn remove_routing_rule(&mut self, from_edge: usize, to_edge: usize)
        ensures
            final(self).name == old(self).name,
            final(self).routing_rules@ == rules_after_remove(old(self).routing_rules@, from_edge, to_edge),
    {
        let ghost rules = self.routing_rules@;
        let ghost pred = keeps_rule(from_edge, to_edge);
        let mut kept: Vec<RoutingRule> = Vec::new();
        let mut i: usize = 0;
        while i < self.routing_rules.len()
            invariant
                rules == self.routing_rules@,
                pred == keeps_rule(from_edge, to_edge),
                i <= rules.len(),
                kept@ == rules.take(i as int).filter(pred),
            decreases rules.len() - i,
        {
            let r = self.routing_rules[i];
            proof {
                let t = rules.take(i + 1);
                assert(t.drop_last() =~= rules.take(i as int));
                assert(t.last() == r);
                reveal(Seq::filter);
            }
            if !(r.from_edge == from_edge && r.to_edge == to_edge) {
                kept.push(r);
            }
            i = i + 1;
        }
        assert(rules.take(rules.len() as int) =~= rules);
        self.routing_rules = kept;
    }

    /// The edges of `all_edges`, in order, that may be taken after `from_edge`.
    pub fn get_allowed_outgoing_edges(&self, from_edge: usize, all_edges: &[usize]) -> (r: Vec<usize>)
        ensures
            r@ == all_edges@.filter(allowed_after(self.routing_rules@, from_edge)),
    {
        let ghost pred = allowed_after(self.routing_rules@, from_edge);
        let mut out: Vec<usize> = Vec::new();
        let mut i: usize = 0;
        while i < all_edges.len()
            invariant
                pred == allowed_after(self.routing_rules@, from_edge),
                i <= all_edges@.len(),
                out@ == all_edges@.take(i as int).filter(pred),
            decreases all_edges.len() - i,
        {
            let e = all_edges[i];
            proof {
                let t = all_edges@.take(i + 1);
                assert(t.drop_last() =~= all_edges@.take(i as int));
                assert(t.last() == e);
                reveal(Seq::filter);
            }
            if self.is_routing_allowed(from_edge, e) {
                out.push(e);
            }
            i = i + 1;
        }
        assert(all_edges@.take(all_edges@.len() as int) =~= all_edges@);
        out
    }
}

/// After setting a rule for a move between two different edges, that move is
/// allowed exactly as set, and every other move is decided as before.
pub proof fn law_set_then_allowed(rules: Seq<RoutingRule>, from: usize, to: usize, allowed: bool, a: usize, b: usize)
    requires
        from != to,
    ensures
        routing_allowed(rules_after_set(rules, from, to, allowed), from, to) == allowed,
        !(a == from && b == to) ==> routing_allowed(rules_after_set(rules, from, to, allowed), a, b)
            == routing_allowed(rules, a, b),
{
    let after = rules_after_set(rules, from, to, allowed);
    let new_rule = RoutingRule { from_edge: from, to_edge: to, allowed };
    match first_rule(rules, from, to) {
        Some(i) => {
            lemma_first_rule_found(rules, from, to, 0);
            assert forall|j: int| 0 <= j < i implies !rule_matches(#[trigger] after[j], from, to) by {
                assert(after[j] == rules[j]);
            }
            lemma_first_rule_at(after, from, to, i);
            if !(a == from && b == to) {
                lemma_other_move_unchanged_update(rules, i, new_rule, a, b);
            }
        },
        None => {
            assert forall|j: int| 0 <= j < rules.len() implies !rule_matches(#[trigger] rules[j], from, to) by {
                if rule_matches(rules[j], from, to) {
                    lemma_first_rule_scan_exists(rules, from, to, j);
                }
            }
            assert forall|j: int| 0 <= j < rules.len() implies !rule_matches(#[trigger] after[j], from, to) by {
                assert(after[j] == rules[j]);
            }
            lemma_first_rule_at(after, from, to, rules.len() as int);
            if !(a == from && b == to) {
                lemma_other_move_unchanged_push(rules, new_rule, a, b);
            }
        },
    }
}

proof fn lemma_first_rule_scan_exists(rules: Seq<RoutingRule>, from: usize, to: usize, j: int)
    requires
        0 <= j < rules.len(),
        rule_matches(rules[j], from, to),
    ensures
        first_rule(rules, from, to) is Some,
    decreases j,
{
    if exists|k: int| 0 <= k < j && rule_matches(#[trigger] rules[k], from, to) {
        let k = choose|k: int| 0 <= k < j && rule_matches(#[trigger] rules[k], from, to);
        lemma_first_rule_scan_exists(rules, from, to, k);
    } else {
        lemma_first_rule_at(rules, from, to, j);
    }
}

/// The first index of any move, computed without assuming a match.
proof fn lemma_first_rule_same(s: Seq<RoutingRule>, t: Seq<RoutingRule>, a: usize, b: usize, start: int)
    requires
        0 <= start <= s.len(),
        s.len() <= t.len(),
        forall|j: int| start <= j < s.len() ==> (rule_matches(#[trigger] s[j], a, b) <==> rule_matches(t[j], a, b)),
        forall|j: int| s.len() <= j < t.len() ==> !rule_matches(#[trigger] t[j], a, b),
    ensures
        first_rule_from(s, a, b, start) == first_rule_from(t, a, b, start),
    decreases s.len() - start,
{
    if start < s.len() {
        lemma_first_rule_same(s, t, a, b, start + 1);
    } else {
        lemma_first_rule_none(t, a, b, start);
    }
}

proof fn lemma_other_move_unchanged_update(rules: Seq<RoutingRule>, i: int, new_rule: RoutingRule, a: usize, b: usize)
    requires
        0 <= i < rules.len(),
        rule_matches(rules[i], new_rule.from_edge, new_rule.to_edge),
        !(a == new_rule.from_edge && b == new_rule.to_edge),
    ensures
        routing_allowed(rules.update(i, new_rule), a, b) == routing_allowed(rules, a, b),
{
    let after = rules.update(i, new_rule);
    assert forall|j: int| 0 <= j < rules.len() implies (rule_matches(#[trigger] rules[j], a, b) <==> rule_matches(after[j], a, b)) by {
        if j == i {
            assert(!rule_matches(rules[j], a, b));
            assert(!rule_matches(after[j], a, b));
        }
    }
    lemma_first_rule_same(rules, after, a, b, 0);
    match first_rule(rules, a, b) {
        Some(k) => {
            lemma_first_rule_found(rules, a, b, 0);
            assert(k != i);
            assert(after[k] == rules[k]);
        },
        None => {},
    }
}

proof fn lemma_other_move_unchanged_push(rules: Seq<RoutingRule>, new_rule: RoutingRule, a: usize, b: usize)
    requires
        !(a == new_rule.from_edge && b == new_rule.to_edge),
    ensures
        routing_allowed(rules.push(new_rule), a, b) == routing_allowed(rules, a, b),
{
    let after = rules.push(new_rule);
    assert forall|j: int| 0 <= j < rules.len() implies (rule_matches(#[trigger] rules[j], a, b) <==> rule_matches(after[j], a, b)) by {
        assert(after[j] == rules[j]);
    }
    assert forall|j: int| rules.len() <= j < after.len() implies !rule_matches(#[trigger] after[j], a, b) by {
        assert(after[j] == new_rule);
    }
    lemma_first_rule_same(rules, after, a, b, 0);
    match first_rule(rules, a, b) {
        Some(k) => {
            lemma_first_rule_found(rules, a, b, 0);
            assert(after[k] == rules[k]);
        },
        None => {},
    }
}

/// Removing the rules for a move returns it to the default: allowed unless it
/// goes from an edge onto itself.
pub proof fn law_remove_restores_default(rules: Seq<RoutingRule>, from: usize, to: usize)
    ensures
        routing_allowed(rules_after_remove(rules, from, to), from, to) == (from != to),
{
    let after = rules_after_remove(rules, from, to);
    broadcast use Seq::lemma_filter_pred;
    assert forall|j: int| 0 <= j < after.len() implies !rule_matches(#[trigger] after[j], from, to) by {
        assert(keeps_rule(from, to)(after[j]));
    }
    lemma_first_rule_none(after, from, to, 0);
}

/// No move from an edge onto itself is ever allowed, whatever the rules say.
pub proof fn law_no_u_turn_onto_same_edge(rules: Seq<RoutingRule>, e: usize)
    ensures
        !routing_allowed(rules, e, e),
{
}

} // verus!
