//! The rule matcher and derivator.
//!
//! For a leaf of the current generation, a rule is viable when its
//! predecessor symbol equals the leaf's symbol, its left and right context
//! patterns match the neighbourhood under branch-aware scanning with the
//! ignore-set transparent, its parameter counts agree with the values
//! carried, and its guard (if any) evaluates to true in the trial scope of
//! the bound parameters. Among viable rules one is selected by weighted
//! draw; a leaf with no viable rule passes through unchanged. Matching and
//! guard evaluation spend a fuel budget: an exhausted budget rejects the
//! rule, so derivation is total.
//!
//! A leaf whose successor argument evaluation fails is kept, carrying the
//! error value among its values: a single bad rule never halts the rest of
//! the derivation.

use vstd::prelude::*;

use crate::ast::CtxNode;
use crate::ast::Leaf;
use crate::ast::Rule;
use crate::ast::RuleBase;
use crate::ast::RulesTable;
use crate::eval::bind_seq;
use crate::eval::eval;
use crate::eval::eval_args_spec;
use crate::eval::eval_spec;
use crate::eval::lemma_eval_args_index;
use crate::node::Instance;
use crate::node::Node;
use crate::node::NodeContent;
use crate::rng::Lcg;
use crate::rng::lcg_next;
use crate::rng::pick_from;
use crate::rng::weight_from;
use crate::rng::weighted_choice;
use crate::tree::Tree;
use crate::tree::prefix_depth;
use crate::tree::lemma_prefix_depth_step;
use crate::values::Scope;
use crate::values::Value;
use crate::values::ValueV;

verus! {

/// An instance leaf, mathematically: its symbol and its values.
pub open spec fn inst_view(c: NodeContent<Instance, char>) -> (char, Seq<ValueV>) {
    (c.character, c.context.values@.map_values(|v: Value| v@))
}

/// A node of a generation, mathematically: a branch marker or a leaf.
pub enum Mark {
    OpenM,
    CloseM,
    SymM(char, Seq<ValueV>),
}

pub open spec fn mark_of(n: Node<Instance, char>) -> Mark {
    match n {
        Node::BranchStart(_) => Mark::OpenM,
        Node::BranchEnd(_) => Mark::CloseM,
        Node::Leaf(c) => Mark::SymM(c.character, c.context.values@.map_values(|v: Value| v@)),
    }
}

/// A generation without its marker indices, which the pairing discipline
/// determines.
pub open spec fn skeleton(s: Seq<Node<Instance, char>>) -> Seq<Mark> {
    s.map_values(|n: Node<Instance, char>| mark_of(n))
}

/// One step of the forward branch-aware scan: the visited position, the new
/// cursor, and the new depth. The scan jumps from an open marker to its
/// close marker, counting the skipped branch, and ends at the sequence end
/// or once the depth has gone negative.
pub open spec fn fwd_step<Ctx, Char>(s: Seq<Node<Ctx, Char>>, idx: int, depth: int) -> Option<
    (int, int, int),
> {
    if idx + 1 >= s.len() || depth < 0 {
        None
    } else {
        let i = idx + 1;
        match s[i] {
            Node::BranchStart(j) => Some((i, j as int, depth + 1)),
            Node::BranchEnd(_) => Some((i, i, depth - 1)),
            Node::Leaf(_) => Some((i, i, depth)),
        }
    }
}

/// The mirror step of the backward scan: a close marker is entered from its
/// end and the scan jumps to the matching open marker.
pub open spec fn bwd_step<Ctx, Char>(s: Seq<Node<Ctx, Char>>, idx: int, depth: int) -> Option<
    (int, int, int),
> {
    if idx <= 0 || idx > s.len() || depth < 0 {
        None
    } else {
        let i = idx - 1;
        match s[i] {
            Node::BranchStart(_) => Some((i, i, depth - 1)),
            Node::BranchEnd(j) => Some((i, j as int, depth + 1)),
            Node::Leaf(_) => Some((i, i, depth)),
        }
    }
}

/// Whether a pattern leaf's declared parameters fit the instance leaf's
/// values: no declaration binds nothing, a declaration must name exactly as
/// many parameters as there are values.
pub open spec fn params_fit(params: Option<Vec<String>>, c: NodeContent<Instance, char>) -> bool {
    match params {
        None => true,
        Some(ps) => ps@.len() == c.context.values@.len(),
    }
}

/// The bindings a matched pattern leaf adds: its parameter names, in order,
/// bound to the instance leaf's values.
pub open spec fn bind_params(params: Option<Vec<String>>, c: NodeContent<Instance, char>) -> Seq<
    (Seq<char>, ValueV),
> {
    match params {
        None => Seq::empty(),
        Some(ps) => Seq::new(ps@.len(), |i: int| (ps@[i]@, c.context.values@[i]@)),
    }
}

/// The same bindings, as concrete name and value pairs.
pub open spec fn bind_pairs(params: Option<Vec<String>>, c: NodeContent<Instance, char>) -> Seq<
    (String, Value),
> {
    match params {
        None => Seq::empty(),
        Some(ps) => Seq::new(ps@.len(), |i: int| (ps@[i], c.context.values@[i])),
    }
}

/// Matching the right context forward from `idx`: `pi` is the next pattern
/// position. Ignored symbols are stepped over; a sibling branch is skipped
/// unless the pattern asks for a branch, which must then recursively
/// contain a match for the nested pattern. The result is the extended
/// environment of bindings, or nothing.
pub open spec fn match_fwd(
    s: Seq<Node<Instance, char>>,
    pats: Seq<CtxNode>,
    pi: int,
    idx: int,
    depth: int,
    ignore: Seq<char>,
    env: Seq<(Seq<char>, ValueV)>,
    fuel: nat,
) -> Option<Seq<(Seq<char>, ValueV)>>
    decreases fuel,
{
    if pi >= pats.len() {
        Some(env)
    } else if fuel == 0 {
        None
    } else {
        let f = (fuel - 1) as nat;
        match fwd_step(s, idx, depth) {
            None => None,
            Some((v, idx2, d2)) => match s[v] {
                Node::Leaf(c) => if ignore.contains(c.character) {
                    match_fwd(s, pats, pi, idx2, d2, ignore, env, f)
                } else {
                    match pats[pi] {
                        CtxNode::Leaf(ll) => if ll.symbol == c.character && params_fit(
                            ll.params,
                            c,
                        ) {
                            match_fwd(
                                s,
                                pats,
                                pi + 1,
                                idx2,
                                d2,
                                ignore,
                                env + bind_params(ll.params, c),
                                f,
                            )
                        } else {
                            None
                        },
                        CtxNode::Branch(_) => None,
                    }
                },
                Node::BranchStart(_) => match pats[pi] {
                    CtxNode::Leaf(_) => match_fwd(s, pats, pi, idx2, d2, ignore, env, f),
                    CtxNode::Branch(sub) => match match_fwd(s, sub@, 0, v, 0, ignore, env, f) {
                        Some(env2) => match_fwd(s, pats, pi + 1, idx2, d2, ignore, env2, f),
                        None => None,
                    },
                },
                Node::BranchEnd(_) => None,
            },
        }
    }
}

/// Matching the left context backward from `idx`: `pn` patterns remain,
/// matched right to left.
pub open spec fn match_bwd(
    s: Seq<Node<Instance, char>>,
    pats: Seq<CtxNode>,
    pn: int,
    idx: int,
    depth: int,
    ignore: Seq<char>,
    env: Seq<(Seq<char>, ValueV)>,
    fuel: nat,
) -> Option<Seq<(Seq<char>, ValueV)>>
    decreases fuel,
{
    if pn <= 0 {
        Some(env)
    } else if fuel == 0 {
        None
    } else {
        let f = (fuel - 1) as nat;
        match bwd_step(s, idx, depth) {
            None => None,
            Some((v, idx2, d2)) => match s[v] {
                Node::Leaf(c) => if ignore.contains(c.character) {
                    match_bwd(s, pats, pn, idx2, d2, ignore, env, f)
                } else {
                    match pats[pn - 1] {
                        CtxNode::Leaf(ll) => if ll.symbol == c.character && params_fit(
                            ll.params,
                            c,
                        ) {
                            match_bwd(
                                s,
                                pats,
                                pn - 1,
                                idx2,
                                d2,
                                ignore,
                                env + bind_params(ll.params, c),
                                f,
                            )
                        } else {
                            None
                        },
                        CtxNode::Branch(_) => None,
                    }
                },
                Node::BranchEnd(_) => match pats[pn - 1] {
                    CtxNode::Leaf(_) => match_bwd(s, pats, pn, idx2, d2, ignore, env, f),
                    CtxNode::Branch(sub) => match match_bwd(
                        s,
                        sub@,
                        sub@.len() as int,
                        v,
                        0,
                        ignore,
                        env,
                        f,
                    ) {
                        Some(env2) => match_bwd(s, pats, pn - 1, idx2, d2, ignore, env2, f),
                        None => None,
                    },
                },
                Node::BranchStart(_) => None,
            },
        }
    }
}

/// The trial environment of a rule at leaf position `p`: predecessor symbol
/// and parameter fit, left context, right context, predecessor bindings,
/// then the guard. Nothing when the rule is not viable here.
pub open spec fn rule_env(
    s: Seq<Node<Instance, char>>,
    p: int,
    base: RuleBase,
    env0: Seq<(Seq<char>, ValueV)>,
    ignore: Seq<char>,
    fuel: nat,
) -> Option<Seq<(Seq<char>, ValueV)>> {
    let c = s[p]->Leaf_0;
    if base.left_leaf.symbol != c.character || !params_fit(base.left_leaf.params, c) {
        None
    } else {
        match match_bwd(s, base.l_ctx@, base.l_ctx@.len() as int, p, 0, ignore, env0, fuel) {
            None => None,
            Some(env1) => match match_fwd(s, base.r_ctx@, 0, p, 0, ignore, env1, fuel) {
                None => None,
                Some(env2) => {
                    let env3 = env2 + bind_params(base.left_leaf.params, c);
                    match base.condition {
                        None => Some(env3),
                        Some(g) => if eval_spec(g, env3, fuel) == ValueV::BoolV(true) {
                            Some(env3)
                        } else {
                            None
                        },
                    }
                },
            },
        }
    }
}

/// The viable rules at `p` from index `i` on: each with its weight and its
/// trial environment.
pub open spec fn viable_list(
    s: Seq<Node<Instance, char>>,
    p: int,
    rules: Seq<Rule>,
    i: int,
    coding: bool,
    ignore: Seq<char>,
    env0: Seq<(Seq<char>, ValueV)>,
    fuel: nat,
) -> Seq<(u32, Seq<(Seq<char>, ValueV)>, int)>
    decreases rules.len() - i,
{
    if i < 0 || i >= rules.len() {
        Seq::empty()
    } else {
        let rest = viable_list(s, p, rules, i + 1, coding, ignore, env0, fuel);
        let kind_ok = if coding {
            rules[i] is Coding
        } else {
            rules[i] is Production
        };
        if !kind_ok {
            rest
        } else {
            match rule_env(s, p, rules[i].base_spec(), env0, ignore, fuel) {
                None => rest,
                Some(env) => seq![(rules[i].base_spec().weight, env, i)] + rest,
            }
        }
    }
}

/// The marks a successor word expands to: leaves carry their evaluated
/// argument values, branches their nested expansion.
pub open spec fn expand_marks(
    nodes: Seq<crate::ast::Node>,
    i: int,
    env: Seq<(Seq<char>, ValueV)>,
    fuel: nat,
) -> Seq<Mark>
    decreases nodes, nodes.len() - i,
{
    if i < 0 || i >= nodes.len() {
        Seq::empty()
    } else {
        let head: Seq<Mark> = match nodes[i] {
            crate::ast::Node::Leaf(leaf) => seq![
                Mark::SymM(
                    leaf.symbol,
                    match leaf.args {
                        Option::None => Seq::empty(),
                        Option::Some(es) => eval_args_spec(es@, env, fuel),
                    },
                ),
            ],
            crate::ast::Node::Branch(sub) => seq![Mark::OpenM] + expand_marks(sub@, 0, env, fuel)
                + seq![Mark::CloseM],
        };
        head + expand_marks(nodes, i + 1, env, fuel)
    }
}

/// What one derivation pass produces from position `p` on: the marks of the
/// output and the final generator state. Each leaf with at least one viable
/// rule consumes one draw; branch markers and leaves without a viable rule
/// pass through unchanged.
pub open spec fn derive_marks(
    s: Seq<Node<Instance, char>>,
    p: int,
    rules: Seq<Rule>,
    coding: bool,
    ignore: Seq<char>,
    env0: Seq<(Seq<char>, ValueV)>,
    rng: u64,
    fuel: nat,
) -> (Seq<Mark>, u64)
    decreases s.len() - p,
{
    if p < 0 || p >= s.len() {
        (Seq::empty(), rng)
    } else {
        match s[p] {
            Node::BranchStart(_) => {
                let rest = derive_marks(s, p + 1, rules, coding, ignore, env0, rng, fuel);
                (seq![Mark::OpenM] + rest.0, rest.1)
            },
            Node::BranchEnd(_) => {
                let rest = derive_marks(s, p + 1, rules, coding, ignore, env0, rng, fuel);
                (seq![Mark::CloseM] + rest.0, rest.1)
            },
            Node::Leaf(c) => {
                let vs = viable_list(s, p, rules, 0, coding, ignore, env0, fuel);
                let ws = vs.map_values(|t: (u32, Seq<(Seq<char>, ValueV)>, int)| t.0);
                let total = weight_from(ws, 0);
                if total == 0 {
                    let rest = derive_marks(s, p + 1, rules, coding, ignore, env0, rng, fuel);
                    (seq![mark_of(s[p])] + rest.0, rest.1)
                } else {
                    let st = lcg_next(rng);
                    let draw = st % (total as u64);
                    let k = pick_from(ws, 0, draw as int);
                    let chosen = vs[k];
                    let word = rules[chosen.2].base_spec().right_side.0;
                    let head = expand_marks(word@, 0, chosen.1, fuel);
                    let rest = derive_marks(s, p + 1, rules, coding, ignore, env0, st, fuel);
                    (head + rest.0, rest.1)
                }
            },
        }
    }
}

/// Law: a rule with an empty left context, an empty right context and no
/// guard is viable at every instance leaf that carries its predecessor
/// symbol with fitting parameters, whatever surrounds the leaf.
pub proof fn lemma_empty_context_matches(
    s: Seq<Node<Instance, char>>,
    p: int,
    base: RuleBase,
    env0: Seq<(Seq<char>, ValueV)>,
    ignore: Seq<char>,
    fuel: nat,
)
    requires
        0 <= p < s.len(),
        s[p] is Leaf,
        base.l_ctx@.len() == 0,
        base.r_ctx@.len() == 0,
        base.condition is None,
        base.left_leaf.symbol == s[p]->Leaf_0.character,
        params_fit(base.left_leaf.params, s[p]->Leaf_0),
    ensures
        rule_env(s, p, base, env0, ignore, fuel) == Some(
            env0 + bind_params(base.left_leaf.params, s[p]->Leaf_0),
        ),
{
}

/// Whether a symbol is in the ignore-set.
fn char_in(v: &Vec<char>, ch: char) -> (r: bool)
    ensures
        r == v@.contains(ch),
{
    let mut i: usize = 0;
    while i < v.len()
        invariant
            i <= v@.len(),
            forall|j: int| 0 <= j < i ==> v@[j] != ch,
        decreases v@.len() - i,
    {
        if v[i] == ch {
            return true;
        }
        i = i + 1;
    }
    false
}

/// Appends the bindings of a matched pattern leaf; answers whether the
/// declared parameters fit the carried values.
fn push_bindings(
    params: &Option<Vec<String>>,
    c: &NodeContent<Instance, char>,
    binds: &mut Vec<(String, Value)>,
) -> (r: bool)
    ensures
        r == params_fit(*params, *c),
        r ==> final(binds)@ == old(binds)@ + bind_pairs(*params, *c),
        !r ==> final(binds)@ == old(binds)@,
{
    match params {
        None => {
            proof {
                assert(binds@ =~= binds@ + bind_pairs(*params, *c));
            }
            true
        },
        Some(ps) => {
            if ps.len() != c.context.values.len() {
                return false;
            }
            let ghost pre = binds@;
            let mut k: usize = 0;
            while k < ps.len()
                invariant
                    k <= ps@.len(),
                    ps@.len() == c.context.values@.len(),
                    binds@ == pre + bind_pairs(Some(*ps), *c).take(k as int),
                decreases ps@.len() - k,
            {
                binds.push((ps[k].clone(), c.context.values[k].dup()));
                proof {
                    assert(binds@ =~= pre + bind_pairs(Some(*ps), *c).take(k as int + 1));
                }
                k = k + 1;
            }
            proof {
                assert(bind_pairs(*params, *c).take(ps@.len() as int) =~= bind_pairs(*params, *c));
            }
            true
        },
    }
}


/// Executes the forward context match, appending bindings as pattern
/// leaves are matched. `env_g` is the base environment the bindings
/// extend.
fn match_fwd_exec(
    t: &Tree<Instance, char>,
    pats: &Vec<CtxNode>,
    pi: usize,
    idx: usize,
    depth: i64,
    ignore: &Vec<char>,
    binds: &mut Vec<(String, Value)>,
    Ghost(env_g): Ghost<Seq<(Seq<char>, ValueV)>>,
    fuel: u32,
) -> (r: bool)
    requires
        pi <= pats@.len(),
        -1 <= depth,
        depth + fuel <= i64::MAX,
    ensures
        match match_fwd(
            t@,
            pats@,
            pi as int,
            idx as int,
            depth as int,
            ignore@,
            env_g + crate::values::entries_view(old(binds)@),
            fuel as nat,
        ) {
            Some(env) => r && env_g + crate::values::entries_view(final(binds)@) == env,
            None => !r,
        },
    decreases fuel,
{
    if pi >= pats.len() {
        return true;
    }
    if fuel == 0 {
        return false;
    }
    let f = fuel - 1;
    let n = t.len();
    if n == 0 || idx >= n - 1 || depth < 0 {
        return false;
    }
    let v = idx + 1;
    match t.node_at(v) {
        Node::Leaf(c) => {
            if char_in(ignore, c.character) {
                match_fwd_exec(t, pats, pi, v, depth, ignore, binds, Ghost(env_g), f)
            } else {
                match &pats[pi] {
                    CtxNode::Leaf(ll) => {
                        if ll.symbol == c.character {
                            let ghost pre = binds@;
                            if push_bindings(&ll.params, c, binds) {
                                proof {
                                    assert(crate::values::entries_view(binds@)
                                        =~= crate::values::entries_view(pre)
                                        + crate::values::entries_view(
                                        bind_pairs(ll.params, *c),
                                    ));
                                    lemma_pairs_view(ll.params, *c);
                                    assert(env_g + crate::values::entries_view(binds@) =~= (env_g
                                        + crate::values::entries_view(pre)) + bind_params(
                                        ll.params,
                                        *c,
                                    ));
                                }
                                match_fwd_exec(
                                    t,
                                    pats,
                                    pi + 1,
                                    v,
                                    depth,
                                    ignore,
                                    binds,
                                    Ghost(env_g),
                                    f,
                                )
                            } else {
                                false
                            }
                        } else {
                            false
                        }
                    },
                    CtxNode::Branch(_) => false,
                }
            }
        },
        Node::BranchStart(j) => {
            let j = *j;
            match &pats[pi] {
                CtxNode::Leaf(_) => match_fwd_exec(
                    t,
                    pats,
                    pi,
                    j,
                    depth + 1,
                    ignore,
                    binds,
                    Ghost(env_g),
                    f,
                ),
                CtxNode::Branch(sub) => {
                    if match_fwd_exec(t, sub, 0, v, 0, ignore, binds, Ghost(env_g), f) {
                        match_fwd_exec(t, pats, pi + 1, j, depth + 1, ignore, binds, Ghost(env_g), f)
                    } else {
                        false
                    }
                },
            }
        },
        Node::BranchEnd(_) => false,
    }
}

/// Executes the backward context match.
fn match_bwd_exec(
    t: &Tree<Instance, char>,
    pats: &Vec<CtxNode>,
    pn: usize,
    idx: usize,
    depth: i64,
    ignore: &Vec<char>,
    binds: &mut Vec<(String, Value)>,
    Ghost(env_g): Ghost<Seq<(Seq<char>, ValueV)>>,
    fuel: u32,
) -> (r: bool)
    requires
        pn <= pats@.len(),
        -1 <= depth,
        depth + fuel <= i64::MAX,
    ensures
        match match_bwd(
            t@,
            pats@,
            pn as int,
            idx as int,
            depth as int,
            ignore@,
            env_g + crate::values::entries_view(old(binds)@),
            fuel as nat,
        ) {
            Some(env) => r && env_g + crate::values::entries_view(final(binds)@) == env,
            None => !r,
        },
    decreases fuel,
{
    if pn == 0 {
        return true;
    }
    if fuel == 0 {
        return false;
    }
    let f = fuel - 1;
    if idx == 0 || idx > t.len() || depth < 0 {
        return false;
    }
    let v = idx - 1;
    match t.node_at(v) {
        Node::Leaf(c) => {
            if char_in(ignore, c.character) {
                match_bwd_exec(t, pats, pn, v, depth, ignore, binds, Ghost(env_g), f)
            } else {
                match &pats[pn - 1] {
                    CtxNode::Leaf(ll) => {
                        if ll.symbol == c.character {
                            let ghost pre = binds@;
                            if push_bindings(&ll.params, c, binds) {
                                proof {
                                    assert(crate::values::entries_view(binds@)
                                        =~= crate::values::entries_view(pre)
                                        + crate::values::entries_view(
                                        bind_pairs(ll.params, *c),
                                    ));
                                    lemma_pairs_view(ll.params, *c);
                                    assert(env_g + crate::values::entries_view(binds@) =~= (env_g
                                        + crate::values::entries_view(pre)) + bind_params(
                                        ll.params,
                                        *c,
                                    ));
                                }
                                match_bwd_exec(t, pats, pn - 1, v, depth, ignore, binds, Ghost(env_g), f)
                            } else {
                                false
                            }
                        } else {
                            false
                        }
                    },
                    CtxNode::Branch(_) => false,
                }
            }
        },
        Node::BranchEnd(j) => {
            let j = *j;
            match &pats[pn - 1] {
                CtxNode::Leaf(_) => match_bwd_exec(
                    t,
                    pats,
                    pn,
                    j,
                    depth + 1,
                    ignore,
                    binds,
                    Ghost(env_g),
                    f,
                ),
                CtxNode::Branch(sub) => {
                    let sn = sub.len();
                    if match_bwd_exec(t, sub, sn, v, 0, ignore, binds, Ghost(env_g), f) {
                        match_bwd_exec(t, pats, pn - 1, j, depth + 1, ignore, binds, Ghost(env_g), f)
                    } else {
                        false
                    }
                },
            }
        },
        Node::BranchStart(_) => false,
    }
}

/// The concrete binding pairs show the same environment entries as the
/// mathematical bindings.
proof fn lemma_pairs_view(params: Option<Vec<String>>, c: NodeContent<Instance, char>)
    ensures
        crate::values::entries_view(bind_pairs(params, c)) == bind_params(params, c),
{
    assert(crate::values::entries_view(bind_pairs(params, c)) =~= bind_params(params, c));
}


/// A deep copy of an instance leaf's payload.
fn inst_dup(c: &NodeContent<Instance, char>) -> (r: NodeContent<Instance, char>)
    ensures
        r.character == c.character,
        r.context.values@ == c.context.values@,
{
    let mut vals: Vec<Value> = Vec::new();
    let mut k: usize = 0;
    while k < c.context.values.len()
        invariant
            k <= c.context.values@.len(),
            vals@ == c.context.values@.take(k as int),
        decreases c.context.values@.len() - k,
    {
        vals.push(c.context.values[k].dup());
        proof {
            assert(vals@ =~= c.context.values@.take(k as int + 1));
        }
        k = k + 1;
    }
    proof {
        assert(c.context.values@.take(c.context.values@.len() as int) =~= c.context.values@);
    }
    NodeContent { character: c.character, context: Instance { values: vals } }
}

/// Tries one rule at leaf position `p`: on viability, the trial scope of
/// its bindings, a child of `scope`.
fn try_rule<'a>(
    t: &Tree<Instance, char>,
    p: usize,
    base: &RuleBase,
    scope: &'a Scope<'a>,
    ignore: &Vec<char>,
    fuel: u32,
) -> (r: Option<Scope<'a>>)
    requires
        p < t@.len(),
        t@[p as int] is Leaf,
    ensures
        match rule_env(t@, p as int, *base, scope.flat(), ignore@, fuel as nat) {
            Some(env) => r matches Some(trial) && trial.flat() == env,
            None => r is None,
        },
{
    let c = match t.node_at(p) {
        Node::Leaf(c) => c,
        _ => {
            return None;
        },
    };
    if base.left_leaf.symbol != c.character {
        return None;
    }
    let fits = match &base.left_leaf.params {
        None => true,
        Some(ps) => ps.len() == c.context.values.len(),
    };
    if !fits {
        return None;
    }
    let mut binds: Vec<(String, Value)> = Vec::new();
    proof {
        assert(crate::values::entries_view(binds@) =~= Seq::<(Seq<char>, ValueV)>::empty());
        assert(scope.flat() + crate::values::entries_view(binds@) =~= scope.flat());
    }
    let lctx_n = base.l_ctx.len();
    if !match_bwd_exec(t, &base.l_ctx, lctx_n, p, 0, ignore, &mut binds, Ghost(scope.flat()), fuel)
        {
        return None;
    }
    if !match_fwd_exec(t, &base.r_ctx, 0, p, 0, ignore, &mut binds, Ghost(scope.flat()), fuel) {
        return None;
    }
    let ghost pre = binds@;
    let pushed = push_bindings(&base.left_leaf.params, c, &mut binds);
    proof {
        assert(pushed);
        assert(crate::values::entries_view(binds@) =~= crate::values::entries_view(pre)
            + crate::values::entries_view(bind_pairs(base.left_leaf.params, *c)));
        lemma_pairs_view(base.left_leaf.params, *c);
        assert(scope.flat() + crate::values::entries_view(binds@) =~= (scope.flat()
            + crate::values::entries_view(pre)) + bind_params(base.left_leaf.params, *c));
    }
    // materialise the trial scope
    let ghost all = binds@;
    let blen = binds.len();
    proof {
        assert(all.len() == blen);
    }
    let mut trial = Scope::child_of(scope);
    let mut bv = binds;
    let mut k: usize = 0;
    while bv.len() > 0
        invariant
            all.len() <= usize::MAX,
            k + bv@.len() == all.len(),
            k <= all.len(),
            bv@ == all.skip(k as int),
            trial.parent_of() == Some(scope),
            trial.flat() == scope.flat() + crate::values::entries_view(all.take(k as int)),
        decreases bv@.len(),
    {
        let pair = bv.remove(0);
        proof {
            assert(pair == all[k as int]);
            assert(bv@ =~= all.skip(k as int + 1));
        }
        trial.set(pair.0, pair.1);
        proof {
            assert(trial.flat() =~= scope.flat() + crate::values::entries_view(
                all.take(k as int + 1),
            ));
        }
        k = k + 1;
    }
    proof {
        assert(all.take(all.len() as int) =~= all);
    }
    // the guard decides viability
    match &base.condition {
        None => Some(trial),
        Some(g) => {
            let v = eval(g, &trial, fuel as u64);
            match v {
                Value::Bool(b) => if b {
                    Some(trial)
                } else {
                    None
                },
                _ => None,
            }
        },
    }
}

/// Expands a successor word into the output sequence: leaves carry their
/// evaluated arguments, branches open and close around their nested
/// expansion.
fn expand_nodes(
    out: &mut Tree<Instance, char>,
    nodes: &Vec<crate::ast::Node>,
    i: usize,
    scope: &Scope<'_>,
    fuel: u32,
)
    requires
        old(out).wf(),
        i <= nodes@.len(),
    ensures
        final(out).wf(),
        final(out).opens() == old(out).opens(),
        skeleton(final(out)@) == skeleton(old(out)@) + expand_marks(
            nodes@,
            i as int,
            scope.flat(),
            fuel as nat,
        ),
    decreases *nodes, nodes@.len() - i,
{
    if i >= nodes.len() {
        proof {
            assert(skeleton(out@) =~= skeleton(out@) + expand_marks(
                nodes@,
                i as int,
                scope.flat(),
                fuel as nat,
            ));
        }
        return ;
    }
    let ghost pre = out@;
    match &nodes[i] {
        crate::ast::Node::Leaf(leaf) => {
            let mut vals: Vec<Value> = Vec::new();
            match &leaf.args {
                None => {},
                Some(es) => {
                    proof {
                        lemma_eval_args_index(es@, scope.flat(), fuel as nat);
                    }
                    let mut k: usize = 0;
                    while k < es.len()
                        invariant
                            k <= es@.len(),
                            vals@.len() == k,
                            forall|j: int|
                                0 <= j < k ==> vals@[j]@ == eval_spec(
                                    es@[j],
                                    scope.flat(),
                                    fuel as nat,
                                ),
                        decreases es@.len() - k,
                    {
                        let v = eval(&es[k], scope, fuel as u64);
                        vals.push(v);
                        k = k + 1;
                    }
                },
            }
            proof {
                match &leaf.args {
                    Option::None => {
                        assert(vals@.map_values(|v: Value| v@) =~= Seq::<ValueV>::empty());
                    },
                    Option::Some(es) => {
                        lemma_eval_args_index(es@, scope.flat(), fuel as nat);
                        assert(vals@.map_values(|v: Value| v@) =~= eval_args_spec(
                            es@,
                            scope.flat(),
                            fuel as nat,
                        ));
                    },
                }
            }
            out.add_leaf(NodeContent { character: leaf.symbol, context: Instance { values: vals } });
            proof {
                assert(skeleton(out@) =~= skeleton(pre) + seq![
                    Mark::SymM(
                        leaf.symbol,
                        match leaf.args {
                            Option::None => Seq::<ValueV>::empty(),
                            Option::Some(es) => eval_args_spec(es@, scope.flat(), fuel as nat),
                        },
                    ),
                ]);
            }
        },
        crate::ast::Node::Branch(sub) => {
            out.open_branch();
            proof {
                assert(skeleton(out@) =~= skeleton(pre) + seq![Mark::OpenM]);
            }
            expand_nodes(out, sub, 0, scope, fuel);
            let ghost mid = out@;
            let ghost midopens = out.opens();
            let closed = out.close_branch();
            proof {
                assert(midopens.len() > 0);
                assert(closed is Ok);
                crate::tree::lemma_wf_top_open(mid, midopens);
                assert(skeleton(out@) =~= skeleton(mid) + seq![Mark::CloseM]);
            }
        },
    }
    expand_nodes(out, nodes, i + 1, scope, fuel);
    proof {
        assert(skeleton(out@) =~= skeleton(pre) + expand_marks(
            nodes@,
            i as int,
            scope.flat(),
            fuel as nat,
        ));
    }
}


/// The weights of a viable list.
pub open spec fn weights_of(vs: Seq<(u32, Seq<(Seq<char>, ValueV)>, int)>) -> Seq<u32> {
    vs.map_values(|t: (u32, Seq<(Seq<char>, ValueV)>, int)| t.0)
}

/// A viable list is never longer than the rule list it came from.
proof fn lemma_viable_len(
    s: Seq<Node<Instance, char>>,
    p: int,
    rules: Seq<Rule>,
    i: int,
    coding: bool,
    ignore: Seq<char>,
    env0: Seq<(Seq<char>, ValueV)>,
    fuel: nat,
)
    ensures
        viable_list(s, p, rules, i, coding, ignore, env0, fuel).len() <= if i < rules.len() {
            rules.len() - i
        } else {
            0
        },
    decreases rules.len() - i,
{
    if 0 <= i < rules.len() {
        lemma_viable_len(s, p, rules, i + 1, coding, ignore, env0, fuel);
    }
}

/// Partial weight sums are bounded by count times the largest weight.
proof fn lemma_weight_bound(ws: Seq<u32>, i: int)
    requires
        0 <= i <= ws.len(),
    ensures
        0 <= weight_from(ws, i) <= (ws.len() - i) * 0x1_0000_0000,
    decreases ws.len() - i,
{
    if i < ws.len() {
        lemma_weight_bound(ws, i + 1);
        assert((ws.len() - i) * 0x1_0000_0000 == (ws.len() - (i + 1)) * 0x1_0000_0000
            + 0x1_0000_0000) by (nonlinear_arith);
    }
}

/// Applies one pass of a rule table to a whole generation: every leaf is
/// rewritten by a weighted choice among its viable rules, or copied when
/// none is viable; branch markers pass through. The output is a fresh,
/// fully closed, well-formed sequence whose content is exactly what
/// `derive_marks` says, and the generator advances once per leaf that had a
/// viable rule.
pub fn derive_tree(
    t: &Tree<Instance, char>,
    table: &RulesTable,
    coding: bool,
    scope: &Scope<'_>,
    ignore: &Vec<char>,
    rng: &mut Lcg,
    fuel: u32,
) -> (out: Tree<Instance, char>)
    requires
        t.wf(),
        t.is_closed(),
        table.rules@.len() < 0x1_0000_0000,
    ensures
        out.wf(),
        out.is_closed(),
        ({
            let full = derive_marks(
                t@,
                0,
                table.rules@,
                coding,
                ignore@,
                scope.flat(),
                old(rng).state_of(),
                fuel as nat,
            );
            skeleton(out@) == full.0 && final(rng).state_of() == full.1
        }),
{
    let ghost full = derive_marks(
        t@,
        0,
        table.rules@,
        coding,
        ignore@,
        scope.flat(),
        old(rng).state_of(),
        fuel as nat,
    );
    let mut out: Tree<Instance, char> = Tree::new();
    proof {
        crate::tree::lemma_wf_depths(t@, t.opens());
        crate::tree::lemma_prefix_depth_zero::<Instance, char>(t@);
        assert(skeleton(out@) =~= Seq::<Mark>::empty());
    }
    let mut p: usize = 0;
    let n = t.len();
    while p < n
        invariant
            n == t@.len(),
            p <= n,
            t.wf(),
            t.is_closed(),
            table.rules@.len() < 0x1_0000_0000,
            crate::tree::depth_ok(t@, t.opens()),
            out.wf(),
            out.opens().len() == prefix_depth(t@, p as int),
            full == derive_marks(
                t@,
                0,
                table.rules@,
                coding,
                ignore@,
                scope.flat(),
                old(rng).state_of(),
                fuel as nat,
            ),
            ({
                let rest = derive_marks(
                    t@,
                    p as int,
                    table.rules@,
                    coding,
                    ignore@,
                    scope.flat(),
                    rng.state_of(),
                    fuel as nat,
                );
                full.0 == skeleton(out@) + rest.0 && full.1 == rest.1
            }),
        decreases n - p,
    {
        let ghost pre = out@;
        proof {
            lemma_prefix_depth_step(t@, p as int + 1);
        }
        match t.node_at(p) {
            Node::BranchStart(_) => {
                out.open_branch();
                proof {
                    assert(skeleton(out@) =~= skeleton(pre) + seq![Mark::OpenM]);
                }
            },
            Node::BranchEnd(_) => {
                let ghost midopens = out.opens();
                let closed = out.close_branch();
                proof {
                    assert(prefix_depth(t@, p as int + 1) >= 0);
                    assert(midopens.len() > 0);
                    assert(closed is Ok);
                    crate::tree::lemma_wf_top_open(pre, midopens);
                    assert(skeleton(out@) =~= skeleton(pre) + seq![Mark::CloseM]);
                }
            },
            Node::Leaf(c) => {
                let ghost vl = viable_list(
                    t@,
                    p as int,
                    table.rules@,
                    0,
                    coding,
                    ignore@,
                    scope.flat(),
                    fuel as nat,
                );
                let mut ws: Vec<u32> = Vec::new();
                let mut scopes: Vec<Scope> = Vec::new();
                let mut idxs: Vec<usize> = Vec::new();
                let mut i: usize = 0;
                let rn = table.rules.len();
                while i < rn
                    invariant
                        rn == table.rules@.len(),
                        rn < 0x1_0000_0000,
                        i <= rn,
                        n == t@.len(),
                        p < n,
                        t@[p as int] is Leaf,
                        ws@.len() == scopes@.len() && scopes@.len() == idxs@.len(),
                        vl == viable_list(
                            t@,
                            p as int,
                            table.rules@,
                            0,
                            coding,
                            ignore@,
                            scope.flat(),
                            fuel as nat,
                        ),
                        vl == Seq::new(
                            ws@.len(),
                            |k: int| (ws@[k], scopes@[k].flat(), idxs@[k] as int),
                        ) + viable_list(
                            t@,
                            p as int,
                            table.rules@,
                            i as int,
                            coding,
                            ignore@,
                            scope.flat(),
                            fuel as nat,
                        ),
                        forall|k: int| 0 <= k < idxs@.len() ==> #[trigger] (idxs@[k]) < rn,
                    decreases rn - i,
                {
                    let rule = &table.rules[i];
                    let kind_ok = match rule {
                        Rule::Production(_) => !coding,
                        Rule::Coding(_) => coding,
                    };
                    let ghost before = Seq::new(
                        ws@.len(),
                        |k: int| (ws@[k], scopes@[k].flat(), idxs@[k] as int),
                    );
                    if kind_ok {
                        match try_rule(t, p, rule.base(), scope, ignore, fuel) {
                            Some(trial) => {
                                ws.push(rule.base().weight);
                                scopes.push(trial);
                                idxs.push(i);
                                proof {
                                    assert(Seq::new(
                                        ws@.len(),
                                        |k: int| (ws@[k], scopes@[k].flat(), idxs@[k] as int),
                                    ) =~= before + seq![
                                        (
                                            table.rules@[i as int].base_spec().weight,
                                            scopes@.last().flat(),
                                            i as int,
                                        ),
                                    ]);
                                    assert(vl =~= (before + seq![
                                        (
                                            table.rules@[i as int].base_spec().weight,
                                            scopes@.last().flat(),
                                            i as int,
                                        ),
                                    ]) + viable_list(
                                        t@,
                                        p as int,
                                        table.rules@,
                                        i as int + 1,
                                        coding,
                                        ignore@,
                                        scope.flat(),
                                        fuel as nat,
                                    ));
                                }
                            },
                            None => {},
                        }
                    }
                    i = i + 1;
                }
                proof {
                    assert(vl =~= Seq::new(
                        ws@.len(),
                        |k: int| (ws@[k], scopes@[k].flat(), idxs@[k] as int),
                    ));
                    assert(weights_of(vl) =~= ws@);
                    lemma_viable_len(
                        t@,
                        p as int,
                        table.rules@,
                        0,
                        coding,
                        ignore@,
                        scope.flat(),
                        fuel as nat,
                    );
                    lemma_weight_bound(ws@, 0);
                }
                // total viable weight
                let m = ws.len();
                let mut total: u64 = 0;
                let mut k: usize = m;
                while k > 0
                    invariant
                        k <= m,
                        m == ws@.len(),
                        m < 0x1_0000_0000,
                        total == weight_from(ws@, k as int),
                    decreases k,
                {
                    k = k - 1;
                    proof {
                        lemma_weight_bound(ws@, k as int);
                        assert((m - k) * 0x1_0000_0000 <= 0xffff_ffff * 0x1_0000_0000)
                            by (nonlinear_arith)
                            requires
                                0 <= k <= m < 0x1_0000_0000,
                        ;
                    }
                    total = total + ws[k] as u64;
                }
                if total == 0 {
                    out.add_leaf(inst_dup(c));
                    proof {
                        assert(skeleton(out@) =~= skeleton(pre) + seq![mark_of(t@[p as int])]);
                    }
                } else {
                    let draw = rng.draw_below(total);
                    let sel = weighted_choice(&ws, draw);
                    let base = table.rules[idxs[sel]].base();
                    expand_nodes(&mut out, &base.right_side.0, 0, &scopes[sel], fuel);
                    proof {
                        assert(vl[sel as int].1 == scopes@[sel as int].flat());
                        assert(vl[sel as int].2 == idxs@[sel as int] as int);
                    }
                }
            },
        }
        p = p + 1;
    }
    proof {
        assert(out.opens().len() == prefix_depth(t@, n as int));
        assert(skeleton(out@) =~= skeleton(out@) + Seq::<Mark>::empty());
        assert(full.0 =~= skeleton(out@));
    }
    out
}


/// The top-level items of `s[lo..hi)`: each leaf position, and each whole
/// branch by its open marker's position.
pub open spec fn items<Ctx, Char>(s: Seq<Node<Ctx, Char>>, lo: int, hi: int) -> Seq<int>
    decreases hi - lo,
{
    if lo < 0 || lo >= hi {
        Seq::empty()
    } else {
        match s[lo] {
            Node::BranchStart(j) => if lo < j + 1 && j + 1 <= hi {
                seq![lo] + items(s, j as int + 1, hi)
            } else {
                seq![lo]
            },
            _ => seq![lo] + items(s, lo + 1, hi),
        }
    }
}

/// A segment is balanced when it is a run of leaves and complete, properly
/// paired branches.
pub open spec fn seg_balanced<Ctx, Char>(s: Seq<Node<Ctx, Char>>, lo: int, hi: int) -> bool
    decreases hi - lo,
{
    if lo >= hi {
        lo == hi
    } else {
        match s[lo] {
            Node::Leaf(_) => seg_balanced(s, lo + 1, hi),
            Node::BranchEnd(_) => false,
            Node::BranchStart(j) => lo < j + 1 <= hi && s[j as int] == Node::<Ctx, Char>::BranchEnd(
                lo as usize,
            ) && seg_balanced(s, j as int + 1, hi),
        }
    }
}

/// The positions a forward scan visits, within a step budget.
pub open spec fn fwd_visits<Ctx, Char>(s: Seq<Node<Ctx, Char>>, idx: int, depth: int, fuel: nat) -> Seq<
    int,
>
    decreases fuel,
{
    if fuel == 0 {
        Seq::empty()
    } else {
        match fwd_step(s, idx, depth) {
            None => Seq::empty(),
            Some((v, i2, d2)) => seq![v] + fwd_visits(s, i2, d2, (fuel - 1) as nat),
        }
    }
}

/// The positions a backward scan visits, within a step budget.
pub open spec fn bwd_visits<Ctx, Char>(s: Seq<Node<Ctx, Char>>, idx: int, depth: int, fuel: nat) -> Seq<
    int,
>
    decreases fuel,
{
    if fuel == 0 {
        Seq::empty()
    } else {
        match bwd_step(s, idx, depth) {
            None => Seq::empty(),
            Some((v, i2, d2)) => seq![v] + bwd_visits(s, i2, d2, (fuel - 1) as nat),
        }
    }
}

/// The item a visited position stands for: a close marker stands for the
/// branch it closes, named by its open position.
pub open spec fn canon_item<Ctx, Char>(s: Seq<Node<Ctx, Char>>, v: int) -> int {
    if 0 <= v < s.len() && s[v] is BranchEnd {
        s[v]->BranchEnd_0 as int
    } else {
        v
    }
}

/// A sequence in reverse.
pub open spec fn rev(s: Seq<int>) -> Seq<int>
    decreases s.len(),
{
    if s.len() == 0 {
        Seq::empty()
    } else {
        seq![s.last()] + rev(s.drop_last())
    }
}

/// A forward scan over a balanced tail visits exactly its top-level items.
proof fn lemma_fwd_seg<Ctx, Char>(s: Seq<Node<Ctx, Char>>, a: int, d: int, fuel: nat)
    requires
        0 <= a <= s.len(),
        seg_balanced(s, a, s.len() as int),
        d >= 0,
        fuel >= s.len() - a + 1,
    ensures
        fwd_visits(s, a - 1, d, fuel) == items(s, a, s.len() as int),
    decreases s.len() - a,
{
    let hi = s.len() as int;
    if a == hi {
        assert(fwd_visits(s, a - 1, d, fuel) =~= items(s, a, hi));
    } else {
        match s[a] {
            Node::Leaf(_) => {
                lemma_fwd_seg(s, a + 1, d, (fuel - 1) as nat);
                assert(fwd_visits(s, a - 1, d, fuel) =~= seq![a] + fwd_visits(
                    s,
                    a,
                    d,
                    (fuel - 1) as nat,
                ));
            },
            Node::BranchStart(j) => {
                lemma_fwd_seg(s, j as int + 1, d + 1, (fuel - 1) as nat);
                assert(fwd_visits(s, a - 1, d, fuel) =~= seq![a] + fwd_visits(
                    s,
                    j as int,
                    d + 1,
                    (fuel - 1) as nat,
                ));
            },
            Node::BranchEnd(_) => {
                assert(false);
            },
        }
    }
}

/// A balanced segment decomposes from the right: its last item is a leaf at
/// the end, or a branch whose close marker stands at the end.
proof fn lemma_balanced_snoc<Ctx, Char>(s: Seq<Node<Ctx, Char>>, lo: int, hi: int)
    requires
        0 <= lo < hi <= s.len(),
        seg_balanced(s, lo, hi),
    ensures
        match s[hi - 1] {
            Node::Leaf(_) => seg_balanced(s, lo, hi - 1) && items(s, lo, hi) == items(
                s,
                lo,
                hi - 1,
            ).push(hi - 1),
            Node::BranchEnd(i) => lo <= i && i + 1 < hi && s[i as int] == Node::<
                Ctx,
                Char,
            >::BranchStart((hi - 1) as usize) && seg_balanced(s, lo, i as int) && items(s, lo, hi)
                == items(s, lo, i as int).push(i as int),
            Node::BranchStart(_) => false,
        },
    decreases hi - lo,
{
    match s[lo] {
        Node::Leaf(_) => {
            if lo == hi - 1 {
                assert(items(s, lo + 1, hi) =~= Seq::<int>::empty());
                assert(items(s, lo, hi) =~= seq![lo]);
                assert(items(s, lo, lo).push(lo) =~= seq![lo]);
                assert(items(s, lo, hi) =~= items(s, lo, hi - 1).push(hi - 1));
            } else {
                lemma_balanced_snoc(s, lo + 1, hi);
                match s[hi - 1] {
                    Node::Leaf(_) => {
                        assert(items(s, lo, hi) =~= items(s, lo, hi - 1).push(hi - 1));
                    },
                    Node::BranchEnd(i) => {
                        assert(items(s, lo, hi) =~= items(s, lo, i as int).push(i as int));
                    },
                    Node::BranchStart(_) => {},
                }
            }
        },
        Node::BranchStart(j) => {
            if j as int + 1 == hi {
                assert(s[hi - 1] == Node::<Ctx, Char>::BranchEnd(lo as usize));
                assert(items(s, j as int + 1, hi) =~= Seq::<int>::empty());
                assert(items(s, lo, hi) =~= seq![lo]);
                assert(items(s, lo, lo).push(lo) =~= seq![lo]);
                assert(items(s, lo, hi) =~= items(s, lo, lo).push(lo));
            } else {
                lemma_balanced_snoc(s, j as int + 1, hi);
                match s[hi - 1] {
                    Node::Leaf(_) => {
                        assert(items(s, lo, hi) =~= items(s, lo, hi - 1).push(hi - 1));
                    },
                    Node::BranchEnd(i) => {
                        assert(items(s, lo, hi) =~= items(s, lo, i as int).push(i as int));
                    },
                    Node::BranchStart(_) => {},
                }
            }
        },
        Node::BranchEnd(_) => {},
    }
}

/// A backward scan over a balanced prefix visits its top-level items in
/// reverse, each branch seen by its close marker.
proof fn lemma_bwd_seg<Ctx, Char>(s: Seq<Node<Ctx, Char>>, b: int, d: int, fuel: nat)
    requires
        0 <= b <= s.len(),
        seg_balanced(s, 0, b),
        d >= 0,
        fuel >= b + 1,
    ensures
        bwd_visits(s, b, d, fuel).map_values(|v: int| canon_item(s, v)) == rev(items(s, 0, b)),
    decreases b,
{
    let f = (fuel - 1) as nat;
    if b == 0 {
        assert(bwd_visits(s, b, d, fuel).map_values(|v: int| canon_item(s, v)) =~= rev(
            items(s, 0, 0),
        ));
    } else {
        lemma_balanced_snoc(s, 0, b);
        match s[b - 1] {
            Node::Leaf(_) => {
                lemma_bwd_seg(s, b - 1, d, f);
                assert(bwd_visits(s, b, d, fuel) =~= seq![b - 1] + bwd_visits(s, b - 1, d, f));
                assert(items(s, 0, b) == items(s, 0, b - 1).push(b - 1));
                assert(items(s, 0, b).last() == b - 1);
                assert(items(s, 0, b).drop_last() =~= items(s, 0, b - 1));
                assert(rev(items(s, 0, b)) == seq![b - 1] + rev(items(s, 0, b - 1)));
                assert(bwd_visits(s, b, d, fuel).map_values(|v: int| canon_item(s, v)) =~= seq![
                    canon_item(s, b - 1),
                ] + bwd_visits(s, b - 1, d, f).map_values(|v: int| canon_item(s, v)));
                assert(canon_item(s, b - 1) == b - 1);
            },
            Node::BranchEnd(i) => {
                lemma_bwd_seg(s, i as int, d + 1, f);
                assert(bwd_visits(s, b, d, fuel) =~= seq![b - 1] + bwd_visits(
                    s,
                    i as int,
                    d + 1,
                    f,
                ));
                assert(items(s, 0, b) == items(s, 0, i as int).push(i as int));
                assert(items(s, 0, b).last() == i as int);
                assert(items(s, 0, b).drop_last() =~= items(s, 0, i as int));
                assert(rev(items(s, 0, b)) == seq![i as int] + rev(items(s, 0, i as int)));
                assert(bwd_visits(s, b, d, fuel).map_values(|v: int| canon_item(s, v)) =~= seq![
                    canon_item(s, b - 1),
                ] + bwd_visits(s, i as int, d + 1, f).map_values(|v: int| canon_item(s, v)));
                assert(canon_item(s, b - 1) == i as int);
            },
            Node::BranchStart(_) => {
                assert(false);
            },
        }
    }
}

/// Law: forward and backward branch-aware scans over a balanced sequence,
/// entered from its two ends, visit the same top-level items in opposite
/// order: the forward scan yields them first to last (a branch by its open
/// marker), the backward scan last to first (a branch by its close marker,
/// standing for the same item).
pub proof fn lemma_scan_symmetry<Ctx, Char>(s: Seq<Node<Ctx, Char>>, fuel: nat)
    requires
        seg_balanced(s, 0, s.len() as int),
        fuel >= s.len() + 1,
    ensures
        fwd_visits(s, -1, 0, fuel) == items(s, 0, s.len() as int),
        bwd_visits(s, s.len() as int, 0, fuel).map_values(|v: int| canon_item(s, v)) == rev(
            items(s, 0, s.len() as int),
        ),
{
    lemma_fwd_seg(s, 0, 0, fuel);
    lemma_bwd_seg(s, s.len() as int, 0, fuel);
}

} // verus!
