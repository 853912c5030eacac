//! The L-system controller: owns the rule tables, the ignore-set, the
//! iteration budget, the seeded generator and the current generation, and
//! drives the generation loop and the final coding pass.

use vstd::prelude::*;

use crate::ast::RulesTable;
use crate::derivator::derive_marks;
use crate::derivator::derive_tree;
use crate::derivator::skeleton;
use crate::node::Instance;
use crate::rng::Lcg;
use crate::values::Scope;
use crate::values::Value;
use crate::values::env_get;
use crate::tree::Tree;

verus! {

/// One derivation step relates two generations: the next one is fresh,
/// closed, well-formed, and carries exactly the marks the derivator
/// computes from the previous one and the generator state.
pub open spec fn step_rel(
    pre: Tree<Instance, char>,
    post: Tree<Instance, char>,
    rules: Seq<crate::ast::Rule>,
    coding: bool,
    ignore: Seq<char>,
    env: Seq<(Seq<char>, crate::values::ValueV)>,
    rng0: u64,
    rng1: u64,
    fuel: nat,
) -> bool {
    let full = derive_marks(pre@, 0, rules, coding, ignore, env, rng0, fuel);
    &&& post.wf()
    &&& post.is_closed()
    &&& skeleton(post@) == full.0
    &&& rng1 == full.1
}

/// A parametric, context-sensitive, stochastic L-system.
pub struct LSystem {
    /// The system's name.
    pub name: String,
    tables: Vec<RulesTable>,
    default_table: RulesTable,
    coding_rules: RulesTable,
    target_iterations: u32,
    ignore_chars: Vec<char>,
    scope: Scope<'static>,
    rng: Lcg,
    current_iter: u32,
    current_tree: Tree<Instance, char>,
    encoded_trees: Vec<Tree<Instance, char>>,
}

impl LSystem {
    /// The current generation.
    pub closed spec fn current(&self) -> Tree<Instance, char> {
        self.current_tree
    }

    /// The iteration index reached so far.
    pub closed spec fn iter_of(&self) -> u32 {
        self.current_iter
    }

    /// The iteration budget.
    pub closed spec fn target_of(&self) -> u32 {
        self.target_iterations
    }

    pub closed spec fn default_rules(&self) -> Seq<crate::ast::Rule> {
        self.default_table.rules@
    }

    pub closed spec fn coding_table(&self) -> Seq<crate::ast::Rule> {
        self.coding_rules.rules@
    }

    pub closed spec fn ignore_of(&self) -> Seq<char> {
        self.ignore_chars@
    }

    pub closed spec fn env_of(&self) -> Seq<(Seq<char>, crate::values::ValueV)> {
        self.scope.flat()
    }

    pub closed spec fn rng_of(&self) -> u64 {
        self.rng.state_of()
    }

    /// The coded outputs produced so far.
    pub closed spec fn encoded(&self) -> Seq<Tree<Instance, char>> {
        self.encoded_trees@
    }

    /// The controller's invariant.
    pub open spec fn wf(&self) -> bool {
        &&& self.current().wf()
        &&& self.current().is_closed()
        &&& self.default_rules().len() < 0x1_0000_0000
        &&& self.coding_table().len() < 0x1_0000_0000
        &&& self.iter_of() <= self.target_of()
    }

    /// Builds a system over its starting sequence, which becomes the first
    /// generation.
    pub fn new(
        name: String,
        start_seq: Tree<Instance, char>,
        tables: Vec<RulesTable>,
        default_table: RulesTable,
        coding_rules: RulesTable,
        ignore_chars: Vec<char>,
        target_iterations: u32,
        scope: Scope<'static>,
        seed: u64,
    ) -> (r: Self)
        requires
            start_seq.wf(),
            start_seq.is_closed(),
            default_table.rules@.len() < 0x1_0000_0000,
            coding_rules.rules@.len() < 0x1_0000_0000,
        ensures
            r.wf(),
            r.current() == start_seq,
            r.iter_of() == 0,
            r.target_of() == target_iterations,
            r.default_rules() == default_table.rules@,
            r.coding_table() == coding_rules.rules@,
            r.ignore_of() == ignore_chars@,
            r.env_of() == scope.flat(),
            r.rng_of() == seed,
            r.encoded() == Seq::<Tree<Instance, char>>::empty(),
    {
        LSystem {
            name,
            tables,
            default_table,
            coding_rules,
            target_iterations,
            ignore_chars,
            scope,
            rng: Lcg::new(seed),
            current_iter: 0,
            current_tree: start_seq,
            encoded_trees: Vec::new(),
        }
    }

    /// Performs one generation: rewrites the current sequence through the
    /// default production table.
    pub fn step(&mut self, fuel: u32)
        requires
            old(self).wf(),
            old(self).iter_of() < old(self).target_of(),
        ensures
            final(self).wf(),
            final(self).iter_of() == old(self).iter_of() + 1,
            final(self).target_of() == old(self).target_of(),
            final(self).default_rules() == old(self).default_rules(),
            final(self).coding_table() == old(self).coding_table(),
            final(self).ignore_of() == old(self).ignore_of(),
            final(self).env_of() == old(self).env_of(),
            final(self).encoded() == old(self).encoded(),
            step_rel(
                old(self).current(),
                final(self).current(),
                old(self).default_rules(),
                false,
                old(self).ignore_of(),
                old(self).env_of(),
                old(self).rng_of(),
                final(self).rng_of(),
                fuel as nat,
            ),
    {
        let next = derive_tree(
            &self.current_tree,
            &self.default_table,
            false,
            &self.scope,
            &self.ignore_chars,
            &mut self.rng,
            fuel,
        );
        self.current_tree = next;
        self.current_iter = self.current_iter + 1;
    }

    /// Runs the remaining generations, then applies the coding table once
    /// to the terminal sequence and records the coded output. The chain of
    /// intermediate generations connects the start_seq to the result, one
    /// `step_rel` per generation.
    pub fn run(&mut self, fuel: u32)
        requires
            old(self).wf(),
        ensures
            final(self).wf(),
            final(self).iter_of() == final(self).target_of(),
            final(self).target_of() == old(self).target_of(),
            final(self).encoded() == old(self).encoded().push(final(self).encoded().last()),
            exists|gens: Seq<Tree<Instance, char>>, states: Seq<u64>|
                {
                    &&& gens.len() == final(self).target_of() - old(self).iter_of() + 1
                    &&& states.len() == gens.len()
                    &&& gens.first() == old(self).current()
                    &&& states.first() == old(self).rng_of()
                    &&& gens.last() == final(self).current()
                    &&& forall|k: int|
                        0 <= k < gens.len() - 1 ==> step_rel(
                            #[trigger] gens[k],
                            gens[k + 1],
                            old(self).default_rules(),
                            false,
                            old(self).ignore_of(),
                            old(self).env_of(),
                            states[k],
                            states[k + 1],
                            fuel as nat,
                        )
                    &&& step_rel(
                        final(self).current(),
                        final(self).encoded().last(),
                        old(self).coding_table(),
                        true,
                        old(self).ignore_of(),
                        old(self).env_of(),
                        states.last(),
                        final(self).rng_of(),
                        fuel as nat,
                    )
                },
    {
        let ghost mut gens: Seq<Tree<Instance, char>> = seq![self.current_tree];
        let ghost mut states: Seq<u64> = seq![self.rng.state_of()];
        while self.current_iter < self.target_iterations
            invariant
                self.wf(),
                self.target_of() == old(self).target_of(),
                self.default_rules() == old(self).default_rules(),
                self.coding_table() == old(self).coding_table(),
                self.ignore_of() == old(self).ignore_of(),
                self.env_of() == old(self).env_of(),
                self.encoded() == old(self).encoded(),
                gens.len() == self.iter_of() - old(self).iter_of() + 1,
                states.len() == gens.len(),
                gens.first() == old(self).current(),
                states.first() == old(self).rng_of(),
                gens.last() == self.current(),
                states.last() == self.rng_of(),
                old(self).iter_of() <= self.iter_of(),
                forall|k: int|
                    0 <= k < gens.len() - 1 ==> step_rel(
                        #[trigger] gens[k],
                        gens[k + 1],
                        old(self).default_rules(),
                        false,
                        old(self).ignore_of(),
                        old(self).env_of(),
                        states[k],
                        states[k + 1],
                        fuel as nat,
                    ),
            decreases self.target_iterations - self.current_iter,
        {
            self.step(fuel);
            proof {
                gens = gens.push(self.current_tree);
                states = states.push(self.rng.state_of());
            }
        }
        let coded = derive_tree(
            &self.current_tree,
            &self.coding_rules,
            true,
            &self.scope,
            &self.ignore_chars,
            &mut self.rng,
            fuel,
        );
        self.encoded_trees.push(coded);
    }

    /// The current iteration index.
    pub fn current_iteration(&self) -> (r: u32)
        ensures
            r == self.iter_of(),
    {
        self.current_iter
    }

    /// Read access to the current generation.
    pub fn current_generation(&self) -> (r: &Tree<Instance, char>)
        ensures
            *r == self.current(),
    {
        &self.current_tree
    }

    /// The coded outputs produced so far.
    pub fn coded_outputs(&self) -> (r: &Vec<Tree<Instance, char>>)
        ensures
            r@ == self.encoded(),
    {
        &self.encoded_trees
    }

    /// By-name lookup in the system's top-level scope.
    pub fn get(&self, var: &String) -> (r: Option<&Value>)
        ensures
            match r {
                Some(v) => env_get(self.env_of(), var@) == Some(v@),
                None => env_get(self.env_of(), var@) is None,
            },
    {
        self.scope.get(var)
    }
}

} // verus!
