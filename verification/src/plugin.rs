use std::collections::HashMap;
use vstd::prelude::*;

verus! {

/// A node of the graphs the S2E plugin records: a symbolic state, and for
/// a basic block its address and generation (how many times that address
/// was translated in the state or the states it forked from).
#[derive(Clone, Copy, PartialEq, Eq, Structural, Debug)]
pub struct NodeMetadata {
    pub symbolic_state_id: u32,
    pub basic_block_vaddr: Option<u64>,
    pub basic_block_generation: Option<u64>,
}

/// The node of symbolic state `id` in the state graph.
pub open spec fn state_node(id: u32) -> NodeMetadata {
    NodeMetadata { symbolic_state_id: id, basic_block_vaddr: None, basic_block_generation: None }
}

/// The key under which the generation of the block at `vaddr` in state
/// `state` is kept.
pub open spec fn gen_key(state: u32, vaddr: u64) -> u128 {
    (state as int * 0x1_0000_0000_0000_0000 + vaddr as int) as u128
}

fn generation_key(state: u32, vaddr: u64) -> (k: u128)
    ensures
        k == gen_key(state, vaddr),
{
    (state as u128) * 0x1_0000_0000_0000_0000u128 + (vaddr as u128)
}

/// The generation of the block at `vaddr` for state `s`: that kept for
/// `s`, or else that of the state it forked from, and so on up to state 0.
pub open spec fn found_gen(pred: Seq<u32>, m: Map<u128, u8>, s: u32, vaddr: u64) -> Option<u8>
    decreases s,
{
    if (s as int) < pred.len() {
        if m.contains_key(gen_key(s, vaddr)) {
            Some(m[gen_key(s, vaddr)])
        } else if s > 0 && pred[s as int] < s {
            found_gen(pred, m, pred[s as int], vaddr)
        } else {
            None
        }
    } else {
        None
    }
}

/// The states passed on the way up from `s` before the one whose
/// generation `found_gen` takes.
pub open spec fn passed(pred: Seq<u32>, m: Map<u128, u8>, s: u32, vaddr: u64) -> Set<u32>
    decreases s,
{
    if (s as int) < pred.len() && !m.contains_key(gen_key(s, vaddr)) && s > 0 && pred[s as int] < s {
        passed(pred, m, pred[s as int], vaddr).insert(s)
    } else {
        Set::empty()
    }
}

/// The keys of the generations of the block at `vaddr` in `states`.
pub open spec fn keys_of(states: Set<u32>, vaddr: u64) -> Set<u128> {
    Set::new(|k: u128| exists|s: u32| #[trigger] states.contains(s) && k == gen_key(s, vaddr))
}

/// `m2` is `m` with the generation `g` kept for each state passed on the
/// way up from `s` to the state whose generation of `vaddr` was found.
pub open spec fn generations_shared(pred: Seq<u32>, m: Map<u128, u8>, s: u32, vaddr: u64, g: u8, m2: Map<u128, u8>) -> bool {
    let p = passed(pred, m, s, vaddr);
    &&& forall|x: u32| #[trigger] p.contains(x) ==> m2[gen_key(x, vaddr)] == g
    &&& m2.dom() == m.dom().union(keys_of(p, vaddr))
    &&& forall|k: u128| #[trigger]
        m.contains_key(k) && !(exists|x: u32| #[trigger] p.contains(x) && k == gen_key(x, vaddr)) ==> m2[k] == m[k]
}

/// The alias table after states with fresh ids from `next_id` on take
/// the aliases `aliases` in turn: an alias within the table is reused, one
/// just past its end extends it.
pub open spec fn fork_aliases(table: Seq<u32>, aliases: Seq<u32>, next_id: int) -> Seq<u32>
    decreases aliases.len(),
{
    if aliases.len() == 0 {
        table
    } else {
        let a = aliases[0];
        let t = if (a as int) < table.len() {
            table.update(a as int, next_id as u32)
        } else {
            table.push(next_id as u32)
        };
        fork_aliases(t, aliases.drop_first(), next_id + 1)
    }
}

/// Each alias in turn is within the table or just past its end.
pub open spec fn aliases_fit(len: int, aliases: Seq<u32>) -> bool
    decreases aliases.len(),
{
    if aliases.len() == 0 {
        true
    } else {
        aliases[0] <= len && aliases_fit(
            if aliases[0] == len {
                len + 1
            } else {
                len
            },
            aliases.drop_first(),
        )
    }
}

/// What the plugin keeps between the events of a run: which symbolic
/// state each of S2E's state aliases stands for, the ids handed out so
/// far, the last block each state executed, the state each one forked
/// from, and the generations of the blocks translated.
pub struct State {
    pub symbolic_state_alias_to_id: Vec<u32>,
    pub symbolic_state_id_count: u32,
    pub symbolic_state_to_last_executed_basic_block_state_and_vaddr: Vec<NodeMetadata>,
    pub state_predecessor: Vec<u32>,
    pub basic_block_state_vaddr_to_generation: HashMap<u128, u8>,
}

impl State {
    /// The ids handed out are those with a predecessor, each forked from an
    /// earlier one (state 0 from none); each state past the first has
    /// executed a block; aliases name handed-out ids; kept generations are
    /// not zero.
    pub open spec fn wf(&self) -> bool {
        let count = self.symbolic_state_id_count as int;
        let pred = self.state_predecessor@;
        let last = self.symbolic_state_to_last_executed_basic_block_state_and_vaddr@;
        &&& count >= 1
        &&& pred.len() == count
        &&& pred[0] == u32::MAX
        &&& forall|s: int| 0 < s < count ==> #[trigger] pred[s] < s
        &&& last.len() == count || (count == 1 && last.len() == 0)
        &&& forall|a: int|
            0 <= a < self.symbolic_state_alias_to_id@.len() ==> #[trigger] self.symbolic_state_alias_to_id@[a]
                < count
        &&& forall|k: u128| #[trigger]
            self.basic_block_state_vaddr_to_generation@.contains_key(k)
                ==> self.basic_block_state_vaddr_to_generation@[k] >= 1
    }

    /// The state at the start of a run: alias 0 is state 0, which forked
    /// from nothing.
    pub fn new() -> (s: Self)
        ensures
            s.wf(),
            s.symbolic_state_alias_to_id@ == seq![0u32],
            s.symbolic_state_id_count == 1,
            s.symbolic_state_to_last_executed_basic_block_state_and_vaddr@ == Seq::<NodeMetadata>::empty(),
            s.state_predecessor@ == seq![u32::MAX],
            s.basic_block_state_vaddr_to_generation@ == Map::<u128, u8>::empty(),
    {
        let mut aliases: Vec<u32> = Vec::new();
        aliases.push(0);
        let mut pred: Vec<u32> = Vec::new();
        pred.push(u32::MAX);
        State {
            symbolic_state_alias_to_id: aliases,
            symbolic_state_id_count: 1,
            symbolic_state_to_last_executed_basic_block_state_and_vaddr: Vec::new(),
            state_predecessor: pred,
            basic_block_state_vaddr_to_generation: HashMap::new(),
        }
    }

    /// State `old_state_alias` forks into new states under the aliases
    /// `new_state_aliases`: each gets a fresh id, forks from the old
    /// state, starts from the old state's last block, and is joined to it
    /// by an edge of the state graph. The edges are returned in order.
    pub fn on_state_fork(&mut self, old_state_alias: u32, new_state_aliases: &[u32]) -> (edges: Vec<
        (NodeMetadata, NodeMetadata),
    >)
        requires
            old(self).wf(),
            old_state_alias < old(self).symbolic_state_alias_to_id@.len(),
            old(self).symbolic_state_to_last_executed_basic_block_state_and_vaddr@.len()
                == old(self).symbolic_state_id_count,
            old(self).symbolic_state_id_count + new_state_aliases@.len() <= u32::MAX,
            old(self).symbolic_state_alias_to_id@.len() + new_state_aliases@.len() <= u32::MAX,
            aliases_fit(old(self).symbolic_state_alias_to_id@.len() as int, new_state_aliases@),
        ensures
            final(self).wf(),
            ({
                let n = new_state_aliases@.len();
                let count = old(self).symbolic_state_id_count as int;
                let old_id = old(self).symbolic_state_alias_to_id@[old_state_alias as int];
                let last = old(self).symbolic_state_to_last_executed_basic_block_state_and_vaddr@;
                &&& final(self).symbolic_state_id_count == count + n
                &&& final(self).state_predecessor@ == old(self).state_predecessor@ + Seq::new(n, |k: int| old_id)
                &&& final(self).symbolic_state_to_last_executed_basic_block_state_and_vaddr@ == last + Seq::new(
                    n,
                    |k: int| last[old_id as int],
                )
                &&& final(self).symbolic_state_alias_to_id@ == fork_aliases(
                    old(self).symbolic_state_alias_to_id@,
                    new_state_aliases@,
                    count,
                )
                &&& edges@ == Seq::new(n, |k: int| (state_node(old_id), state_node((count + k) as u32)))
            }),
            final(self).basic_block_state_vaddr_to_generation@ == old(self).basic_block_state_vaddr_to_generation@,
    {
        let ghost o = *old(self);
        let ghost n = new_state_aliases@.len();
        let ghost count = o.symbolic_state_id_count as int;
        assert(new_state_aliases@.skip(0) =~= new_state_aliases@);
        let old_state_id = self.symbolic_state_alias_to_id[old_state_alias as usize];
        let ghost last0 = o.symbolic_state_to_last_executed_basic_block_state_and_vaddr@;
        let mut edges: Vec<(NodeMetadata, NodeMetadata)> = Vec::new();
        let mut i: usize = 0;
        while i < new_state_aliases.len()
            invariant
                0 <= i <= n,
                n == new_state_aliases@.len(),
                count == o.symbolic_state_id_count,
                o.wf(),
                count + n <= u32::MAX,
                o.symbolic_state_alias_to_id@.len() + n <= u32::MAX,
                last0.len() == count,
                old_state_id == o.symbolic_state_alias_to_id@[old_state_alias as int],
                old_state_id < count,
                self.symbolic_state_id_count == count + i,
                self.state_predecessor@ == o.state_predecessor@ + Seq::new(i as nat, |k: int| old_state_id),
                self.symbolic_state_to_last_executed_basic_block_state_and_vaddr@ == last0 + Seq::new(
                    i as nat,
                    |k: int| last0[old_state_id as int],
                ),
                fork_aliases(o.symbolic_state_alias_to_id@, new_state_aliases@, count) == fork_aliases(
                    self.symbolic_state_alias_to_id@,
                    new_state_aliases@.skip(i as int),
                    count + i,
                ),
                aliases_fit(self.symbolic_state_alias_to_id@.len() as int, new_state_aliases@.skip(i as int)),
                self.symbolic_state_alias_to_id@.len() <= o.symbolic_state_alias_to_id@.len() + i,
                forall|a: int|
                    0 <= a < self.symbolic_state_alias_to_id@.len() ==> #[trigger] self.symbolic_state_alias_to_id@[a]
                        < count + i,
                edges@ == Seq::new(i as nat, |k: int| (state_node(old_state_id), state_node((count + k) as u32))),
                self.basic_block_state_vaddr_to_generation@ == o.basic_block_state_vaddr_to_generation@,
            decreases n - i,
        {
            let new_state_alias = new_state_aliases[i];
            // Newly forked states are always newly allocated
            let new_state_id = self.symbolic_state_id_count;
            self.symbolic_state_id_count = self.symbolic_state_id_count + 1;
            let ghost rest = new_state_aliases@.skip(i as int);
            proof {
                assert(rest[0] == new_state_alias);
                assert(rest.drop_first() =~= new_state_aliases@.skip(i + 1));
            }
            // But they might be aliased by an existing state alias
            let len = self.symbolic_state_alias_to_id.len() as u32;
            if new_state_alias < len {
                self.symbolic_state_alias_to_id.set(new_state_alias as usize, new_state_id);
            } else {
                self.symbolic_state_alias_to_id.push(new_state_id);
            }
            edges.push(
                (
                    NodeMetadata { symbolic_state_id: old_state_id, basic_block_vaddr: None, basic_block_generation: None },
                    NodeMetadata { symbolic_state_id: new_state_id, basic_block_vaddr: None, basic_block_generation: None },
                ),
            );
            let last = self.symbolic_state_to_last_executed_basic_block_state_and_vaddr[old_state_id as usize];
            self.symbolic_state_to_last_executed_basic_block_state_and_vaddr.push(last);
            self.state_predecessor.push(old_state_id);
            proof {
                assert(last == last0[old_state_id as int]);
                assert(self.state_predecessor@ =~= o.state_predecessor@ + Seq::new((i + 1) as nat, |k: int| old_state_id));
                assert(self.symbolic_state_to_last_executed_basic_block_state_and_vaddr@ =~= last0 + Seq::new(
                    (i + 1) as nat,
                    |k: int| last0[old_state_id as int],
                ));
                assert(edges@ =~= Seq::new(
                    (i + 1) as nat,
                    |k: int| (state_node(old_state_id), state_node((count + k) as u32)),
                ));
            }
            i = i + 1;
        }
        proof {
            assert(new_state_aliases@.skip(n as int) =~= Seq::<u32>::empty());
            let pred = self.state_predecessor@;
            assert forall|s: int| 0 < s < self.symbolic_state_id_count implies #[trigger] pred[s] < s by {
                if s >= count {
                    assert(pred[s] == old_state_id);
                } else {
                    assert(pred[s] == o.state_predecessor@[s]);
                }
            }
            assert(pred[0] == o.state_predecessor@[0]);
        }
        edges
    }

    /// States `base_state_alias` and `other_state_alias` merge: the edge
    /// of the state graph from the other state to the base one.
    pub fn on_state_merge(&self, base_state_alias: u32, other_state_alias: u32) -> (edge: (NodeMetadata, NodeMetadata))
        requires
            base_state_alias < self.symbolic_state_alias_to_id@.len(),
            other_state_alias < self.symbolic_state_alias_to_id@.len(),
        ensures
            edge == (
                state_node(self.symbolic_state_alias_to_id@[other_state_alias as int]),
                state_node(self.symbolic_state_alias_to_id@[base_state_alias as int]),
            ),
    {
        (
            NodeMetadata {
                symbolic_state_id: self.symbolic_state_alias_to_id[other_state_alias as usize],
                basic_block_vaddr: None,
                basic_block_generation: None,
            },
            NodeMetadata {
                symbolic_state_id: self.symbolic_state_alias_to_id[base_state_alias as usize],
                basic_block_vaddr: None,
                basic_block_generation: None,
            },
        )
    }

    /// A block at `block_virtual_addr` (not zero) is translated in state
    /// `current_state_alias`: its generation in that state goes up by one.
    pub fn on_translate_block(&mut self, current_state_alias: u32, block_virtual_addr: u64)
        requires
            old(self).wf(),
            current_state_alias < old(self).symbolic_state_alias_to_id@.len(),
            block_virtual_addr != 0,
            ({
                let k = gen_key(
                    old(self).symbolic_state_alias_to_id@[current_state_alias as int],
                    block_virtual_addr,
                );
                old(self).basic_block_state_vaddr_to_generation@.contains_key(k)
                    ==> old(self).basic_block_state_vaddr_to_generation@[k] < u8::MAX
            }),
        ensures
            final(self).wf(),
            final(self).symbolic_state_alias_to_id == old(self).symbolic_state_alias_to_id,
            final(self).symbolic_state_id_count == old(self).symbolic_state_id_count,
            final(self).symbolic_state_to_last_executed_basic_block_state_and_vaddr
                == old(self).symbolic_state_to_last_executed_basic_block_state_and_vaddr,
            final(self).state_predecessor == old(self).state_predecessor,
            ({
                let m = old(self).basic_block_state_vaddr_to_generation@;
                let k = gen_key(
                    old(self).symbolic_state_alias_to_id@[current_state_alias as int],
                    block_virtual_addr,
                );
                final(self).basic_block_state_vaddr_to_generation@ == m.insert(
                    k,
                    (if m.contains_key(k) {
                        m[k] + 1
                    } else {
                        1
                    }) as u8,
                )
            }),
    {
        let current_state_id = self.symbolic_state_alias_to_id[current_state_alias as usize];
        let k = generation_key(current_state_id, block_virtual_addr);
        let g: u8 = match self.basic_block_state_vaddr_to_generation.get(&k) {
            Some(g) => *g + 1,
            None => 1,
        };
        self.basic_block_state_vaddr_to_generation.insert(k, g);
    }

    /// The generation of the block at `vaddr` for state `state_id`, found
    /// up the states it forked from; every state passed on the way keeps
    /// it from then on.
    fn generation_from_state_vaddr(&mut self, state_id: u32, vaddr: u64) -> (g: u8)
        requires
            old(self).wf(),
            found_gen(old(self).state_predecessor@, old(self).basic_block_state_vaddr_to_generation@, state_id, vaddr)
                is Some,
        ensures
            final(self).wf(),
            final(self).symbolic_state_alias_to_id == old(self).symbolic_state_alias_to_id,
            final(self).symbolic_state_id_count == old(self).symbolic_state_id_count,
            final(self).symbolic_state_to_last_executed_basic_block_state_and_vaddr
                == old(self).symbolic_state_to_last_executed_basic_block_state_and_vaddr,
            final(self).state_predecessor == old(self).state_predecessor,
            Some(g) == found_gen(
                old(self).state_predecessor@,
                old(self).basic_block_state_vaddr_to_generation@,
                state_id,
                vaddr,
            ),
            g >= 1,
            generations_shared(
                old(self).state_predecessor@,
                old(self).basic_block_state_vaddr_to_generation@,
                state_id,
                vaddr,
                g,
                final(self).basic_block_state_vaddr_to_generation@,
            ),
    {
        let ghost o = *old(self);
        let ghost pred = o.state_predecessor@;
        let ghost m = o.basic_block_state_vaddr_to_generation@;
        let mut stack: Vec<u32> = Vec::new();
        let mut s = state_id;
        loop
            invariant
                o == *old(self),
                self.basic_block_state_vaddr_to_generation@ == m,
                self.state_predecessor == o.state_predecessor,
                self.state_predecessor@ == pred,
                self.symbolic_state_alias_to_id == o.symbolic_state_alias_to_id,
                self.symbolic_state_id_count == o.symbolic_state_id_count,
                self.symbolic_state_to_last_executed_basic_block_state_and_vaddr
                    == o.symbolic_state_to_last_executed_basic_block_state_and_vaddr,
                pred == o.state_predecessor@,
                m == o.basic_block_state_vaddr_to_generation@,
                o.wf(),
                found_gen(pred, m, s, vaddr) == found_gen(pred, m, state_id, vaddr),
                found_gen(pred, m, s, vaddr) is Some,
                passed(pred, m, state_id, vaddr) == stack@.to_set().union(passed(pred, m, s, vaddr)),
                forall|q: int| 0 <= q < stack@.len() ==> !passed(pred, m, s, vaddr).contains(#[trigger] stack@[q]),
            decreases s,
        {
            let k = generation_key(s, vaddr);
            match self.basic_block_state_vaddr_to_generation.get(&k) {
                Some(g) => {
                    let g = *g;
                    proof {
                        assert(self.basic_block_state_vaddr_to_generation@ == m);
                        assert(self.basic_block_state_vaddr_to_generation@.contains_key(k));
                        assert(m.contains_key(gen_key(s, vaddr)));
                        assert(passed(pred, m, s, vaddr) =~= Set::<u32>::empty());
                        assert(stack@.to_set() =~= passed(pred, m, state_id, vaddr));
                    }
                    let mut j: usize = 0;
                    while j < stack.len()
                        invariant
                            o == *old(self),
                            pred == o.state_predecessor@,
                            m == o.basic_block_state_vaddr_to_generation@,
                            o.wf(),
                            0 <= j <= stack@.len(),
                            g >= 1,
                            self.symbolic_state_alias_to_id == o.symbolic_state_alias_to_id,
                            self.symbolic_state_id_count == o.symbolic_state_id_count,
                            self.symbolic_state_to_last_executed_basic_block_state_and_vaddr
                                == o.symbolic_state_to_last_executed_basic_block_state_and_vaddr,
                            self.state_predecessor == o.state_predecessor,
                            self.basic_block_state_vaddr_to_generation@.dom() == m.dom().union(
                                keys_of(stack@.take(j as int).to_set(), vaddr),
                            ),
                            forall|q: int| 0 <= q < j ==> self.basic_block_state_vaddr_to_generation@[gen_key(#[trigger] stack@[q], vaddr)] == g,
                            forall|kk: u128| #[trigger]
                                self.basic_block_state_vaddr_to_generation@.contains_key(kk)
                                    && !(exists|q: int| 0 <= q < j && kk == gen_key(#[trigger] stack@[q], vaddr))
                                    ==> self.basic_block_state_vaddr_to_generation@[kk] == m[kk],
                        decreases stack@.len() - j,
                    {
                        let t = stack[j];
                        let kt = generation_key(t, vaddr);
                        self.basic_block_state_vaddr_to_generation.insert(kt, g);
                        proof {
                            let cur = self.basic_block_state_vaddr_to_generation@;
                            assert(stack@.take(j + 1).to_set() =~= stack@.take(j as int).to_set().insert(t)) by {
                                assert forall|x: u32| stack@.take(j + 1).to_set().contains(x) <==> stack@.take(j as int).to_set().insert(t).contains(x) by {
                                    if stack@.take(j + 1).to_set().contains(x) {
                                        let q = choose|q: int| 0 <= q < j + 1 && #[trigger] stack@.take(j + 1)[q] == x;
                                        if q < j {
                                            assert(stack@.take(j as int)[q] == x);
                                        }
                                    }
                                    if stack@.take(j as int).to_set().contains(x) {
                                        let q = choose|q: int| 0 <= q < j && #[trigger] stack@.take(j as int)[q] == x;
                                        assert(stack@.take(j + 1)[q] == x);
                                    }
                                    if x == t {
                                        assert(stack@.take(j + 1)[j as int] == x);
                                    }
                                }
                            }
                            let kn = keys_of(stack@.take(j + 1).to_set(), vaddr);
                            let ko = keys_of(stack@.take(j as int).to_set(), vaddr);
                            assert forall|kk: u128| kn.contains(kk) <==> ko.insert(kt).contains(kk) by {
                                if kn.contains(kk) {
                                    let x = choose|x: u32| #[trigger] stack@.take(j + 1).to_set().contains(x) && kk == gen_key(x, vaddr);
                                    if x != t {
                                        assert(stack@.take(j as int).to_set().contains(x));
                                    }
                                }
                                if ko.contains(kk) {
                                    let x = choose|x: u32| #[trigger] stack@.take(j as int).to_set().contains(x) && kk == gen_key(x, vaddr);
                                    assert(stack@.take(j + 1).to_set().contains(x));
                                }
                                if kk == kt {
                                    assert(stack@.take(j + 1).to_set().contains(t));
                                }
                            }
                            assert(kn =~= ko.insert(kt));
                            assert(cur.dom() =~= m.dom().union(keys_of(stack@.take(j + 1).to_set(), vaddr)));
                            assert forall|kk: u128| #[trigger] cur.contains_key(kk) && !(exists|q: int|
                                0 <= q < j + 1 && kk == gen_key(#[trigger] stack@[q], vaddr)) implies cur[kk] == m[kk] by {
                                assert(kk != gen_key(stack@[j as int], vaddr));
                            }
                        }
                        j = j + 1;
                    }
                    proof {
                        assert(stack@.take(stack@.len() as int) =~= stack@);
                        let p = passed(pred, m, state_id, vaddr);
                        let fm = self.basic_block_state_vaddr_to_generation@;
                        assert forall|x: u32| #[trigger] p.contains(x) implies fm[gen_key(x, vaddr)] == g by {
                            assert(stack@.to_set().contains(x));
                            let q = choose|q: int| 0 <= q < stack@.len() && #[trigger] stack@[q] == x;
                        }
                        assert forall|kk: u128| #[trigger] m.contains_key(kk) && !(exists|x: u32| #[trigger] p.contains(x) && kk == gen_key(x, vaddr)) implies fm[kk] == m[kk] by {
                            assert(fm.dom().contains(kk));
                            assert(!(exists|q: int| 0 <= q < stack@.len() && kk == gen_key(#[trigger] stack@[q], vaddr))) by {
                                if exists|q: int| 0 <= q < stack@.len() && kk == gen_key(#[trigger] stack@[q], vaddr) {
                                    let q = choose|q: int| 0 <= q < stack@.len() && kk == gen_key(#[trigger] stack@[q], vaddr);
                                    assert(stack@.to_set().contains(stack@[q]));
                                    assert(p.contains(stack@[q]));
                                }
                            }
                        }
                        assert forall|kk: u128| #[trigger] fm.contains_key(kk) implies fm[kk] >= 1 by {
                            if exists|q: int| 0 <= q < stack@.len() && kk == gen_key(#[trigger] stack@[q], vaddr) {
                            } else {
                                if keys_of(stack@.to_set(), vaddr).contains(kk) {
                                    let t = choose|t: u32| #[trigger] stack@.to_set().contains(t) && kk == gen_key(t, vaddr);
                                    let q = choose|q: int| 0 <= q < stack@.len() && #[trigger] stack@[q] == t;
                                }
                            }
                        }
                    }
                    return g;
                },
                None => {
                    proof {
                        assert(!m.contains_key(gen_key(s, vaddr)));
                        assert((s as int) < pred.len());
                        assert(s > 0 && pred[s as int] < s);
                        assert(passed(pred, m, s, vaddr) == passed(pred, m, pred[s as int], vaddr).insert(s));
                        assert(!passed(pred, m, pred[s as int], vaddr).contains(s)) by {
                            lemma_passed_below(pred, m, pred[s as int], vaddr);
                        }
                    }
                    let ghost before = stack@;
                    stack.push(s);
                    proof {
                        assert(stack@.to_set() =~= before.to_set().insert(s)) by {
                            assert forall|x: u32| stack@.to_set().contains(x) <==> before.to_set().insert(s).contains(x) by {
                                if stack@.to_set().contains(x) {
                                    let q = choose|q: int| 0 <= q < stack@.len() && #[trigger] stack@[q] == x;
                                    if q < stack@.len() - 1 {
                                        assert(before[q] == x);
                                    }
                                }
                                if before.to_set().contains(x) {
                                    let q = choose|q: int| 0 <= q < before.len() && #[trigger] before[q] == x;
                                    assert(stack@[q] == x);
                                }
                                if x == s {
                                    assert(stack@[stack@.len() - 1] == x);
                                }
                            }
                        }
                    }
                    s = self.state_predecessor[s as usize];
                },
            }
        }
    }
}

/// The states passed from `s` are at most `s`.
proof fn lemma_passed_below(pred: Seq<u32>, m: Map<u128, u8>, s: u32, vaddr: u64)
    ensures
        forall|x: u32| #[trigger] passed(pred, m, s, vaddr).contains(x) ==> x <= s,
    decreases s,
{
    if (s as int) < pred.len() && !m.contains_key(gen_key(s, vaddr)) && s > 0 && pred[s as int] < s {
        lemma_passed_below(pred, m, pred[s as int], vaddr);
        assert(passed(pred, m, s, vaddr) == passed(pred, m, pred[s as int], vaddr).insert(s));
    } else {
        assert(passed(pred, m, s, vaddr) == Set::<u32>::empty());
    }
}

impl State {
    /// A watched block at `block_virtual_addr` (not zero) starts to execute
    /// in state `current_state_alias`. The very first block of state 0 is
    /// only recorded. Otherwise the block, with its generation found up the
    /// states it forked from, becomes the state's last executed block, and
    /// the edge of the block graph from the block executed before it is
    /// returned.
    pub fn on_watched_block_start_execute(&mut self, current_state_alias: u32, block_virtual_addr: u64) -> (edge:
        Option<(NodeMetadata, NodeMetadata)>)
        requires
            old(self).wf(),
            current_state_alias < old(self).symbolic_state_alias_to_id@.len(),
            block_virtual_addr != 0,
            ({
                let id = old(self).symbolic_state_alias_to_id@[current_state_alias as int];
                !(id == 0 && old(self).symbolic_state_to_last_executed_basic_block_state_and_vaddr@.len() == 0)
                    ==> found_gen(
                    old(self).state_predecessor@,
                    old(self).basic_block_state_vaddr_to_generation@,
                    id,
                    block_virtual_addr,
                ) is Some
            }),
        ensures
            final(self).wf(),
            final(self).symbolic_state_alias_to_id == old(self).symbolic_state_alias_to_id,
            final(self).symbolic_state_id_count == old(self).symbolic_state_id_count,
            final(self).state_predecessor == old(self).state_predecessor,
            ({
                let id = old(self).symbolic_state_alias_to_id@[current_state_alias as int];
                let last = old(self).symbolic_state_to_last_executed_basic_block_state_and_vaddr@;
                let pred = old(self).state_predecessor@;
                let m = old(self).basic_block_state_vaddr_to_generation@;
                if id == 0 && last.len() == 0 {
                    &&& edge is None
                    &&& final(self).symbolic_state_to_last_executed_basic_block_state_and_vaddr@ == seq![
                        NodeMetadata {
                            symbolic_state_id: 0,
                            basic_block_vaddr: Some(block_virtual_addr),
                            basic_block_generation: Some(1),
                        },
                    ]
                    &&& final(self).basic_block_state_vaddr_to_generation@ == m
                } else {
                    let g = found_gen(pred, m, id, block_virtual_addr)->0;
                    let current = NodeMetadata {
                        symbolic_state_id: id,
                        basic_block_vaddr: Some(block_virtual_addr),
                        basic_block_generation: Some(g as u64),
                    };
                    &&& edge == Some((last[id as int], current))
                    &&& final(self).symbolic_state_to_last_executed_basic_block_state_and_vaddr@ == last.update(
                        id as int,
                        current,
                    )
                    &&& generations_shared(
                        pred,
                        m,
                        id,
                        block_virtual_addr,
                        g,
                        final(self).basic_block_state_vaddr_to_generation@,
                    )
                }
            }),
    {
        let current_state_id = self.symbolic_state_alias_to_id[current_state_alias as usize];
        if current_state_id == 0 && self.symbolic_state_to_last_executed_basic_block_state_and_vaddr.len() == 0 {
            // Very first block execution of state 0
            self.symbolic_state_to_last_executed_basic_block_state_and_vaddr.push(
                NodeMetadata {
                    symbolic_state_id: current_state_id,
                    basic_block_vaddr: Some(block_virtual_addr),
                    basic_block_generation: Some(1),
                },
            );
            return None;
        }
        let g = self.generation_from_state_vaddr(current_state_id, block_virtual_addr);
        let current_metadata = NodeMetadata {
            symbolic_state_id: current_state_id,
            basic_block_vaddr: Some(block_virtual_addr),
            basic_block_generation: Some(g as u64),
        };
        let last_metadata = self.symbolic_state_to_last_executed_basic_block_state_and_vaddr[current_state_id as usize];
        self.symbolic_state_to_last_executed_basic_block_state_and_vaddr.set(current_state_id as usize, current_metadata);
        Some((last_metadata, current_metadata))
    }
}

} // verus!
