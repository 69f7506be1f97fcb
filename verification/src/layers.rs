use vstd::prelude::*;
use crate::graph::{eq_but_data, eq_but_grad, node_frame, Graph, OpKind};
use crate::tensor;

verus! {

/// First binding of `id` in a parameter registry, searched from the front.
pub open spec fn reg_find(reg: Seq<(u32, usize)>, id: u32) -> Option<usize>
    decreases reg.len(),
{
    if reg.len() == 0 {
        None
    } else if reg[0].0 == id {
        Some(reg[0].1)
    } else {
        reg_find(reg.drop_first(), id)
    }
}

/// Whether some registry entry binds the node index `j`.
pub open spec fn reg_has_idx(reg: Seq<(u32, usize)>, j: int) -> bool {
    exists|k: int| 0 <= k < reg.len() && (#[trigger] reg[k]).1 == j
}

/// A found binding corresponds to an actual entry.
pub proof fn lemma_find_entry(reg: Seq<(u32, usize)>, id: u32)
    requires
        reg_find(reg, id) is Some,
    ensures
        exists|k: int|
            0 <= k < reg.len() && (#[trigger] reg[k]).0 == id && reg[k].1 == reg_find(
                reg,
                id,
            ).unwrap(),
    decreases reg.len(),
{
    if reg.len() > 0 && reg[0].0 != id {
        lemma_find_entry(reg.drop_first(), id);
        let k = choose|k: int|
            0 <= k < reg.drop_first().len() && (#[trigger] reg.drop_first()[k]).0 == id
                && reg.drop_first()[k].1 == reg_find(reg.drop_first(), id).unwrap();
        assert(reg[k + 1] == reg.drop_first()[k]);
    }
}

/// A key that is not found is bound by no entry.
pub proof fn lemma_find_none(reg: Seq<(u32, usize)>, id: u32)
    requires
        reg_find(reg, id) is None,
    ensures
        forall|k: int| 0 <= k < reg.len() ==> (#[trigger] reg[k]).0 != id,
    decreases reg.len(),
{
    if reg.len() > 0 {
        lemma_find_none(reg.drop_first(), id);
        assert forall|k: int| 0 <= k < reg.len() implies (#[trigger] reg[k]).0 != id by {
            if k > 0 {
                assert(reg.drop_first()[k - 1] == reg[k]);
            }
        }
    }
}

/// A key that no entry binds is not found.
pub proof fn lemma_find_absent(reg: Seq<(u32, usize)>, id: u32)
    requires
        forall|k: int| 0 <= k < reg.len() ==> (#[trigger] reg[k]).0 != id,
    ensures
        reg_find(reg, id) is None,
    decreases reg.len(),
{
    if reg.len() > 0 {
        assert(forall|k: int|
            0 <= k < reg.drop_first().len() ==> (#[trigger] reg.drop_first()[k]) == reg[k + 1]);
        lemma_find_absent(reg.drop_first(), id);
    }
}

/// Appending an entry binds its key if it was free and keeps every other
/// binding.
pub proof fn lemma_find_push(reg: Seq<(u32, usize)>, e: (u32, usize), id: u32)
    ensures
        reg_find(reg.push(e), id) == (if reg_find(reg, id) is Some {
            reg_find(reg, id)
        } else if e.0 == id {
            Some(e.1)
        } else {
            None
        }),
    decreases reg.len(),
{
    if reg.len() == 0 {
        assert(reg_find(reg, id) is None);
        assert(reg.push(e)[0] == e);
        assert(reg.push(e).len() == 1);
        assert(reg.push(e).drop_first() =~= Seq::<(u32, usize)>::empty());
        assert(reg_find(Seq::<(u32, usize)>::empty(), id) is None);
        if e.0 == id {
            assert(reg_find(reg.push(e), id) == Some(e.1));
        } else {
            assert(reg_find(reg.push(e), id) == reg_find(reg.push(e).drop_first(), id));
            assert(reg_find(reg.push(e), id) is None);
        }
    } else {
        assert(reg.push(e)[0] == reg[0]);
        assert(reg.push(e).drop_first() =~= reg.drop_first().push(e));
        lemma_find_push(reg.drop_first(), e, id);
        if reg[0].0 == id {
            assert(reg_find(reg.push(e), id) == Some(reg[0].1));
            assert(reg_find(reg, id) == Some(reg[0].1));
        } else {
            assert(reg_find(reg.push(e), id) == reg_find(reg.drop_first().push(e), id));
            assert(reg_find(reg, id) == reg_find(reg.drop_first(), id));
        }
    }
}

/// A stateful, named collection of trainable parameters: the uniform
/// lifecycle contract every layer kind shares.
pub trait Layer<A> {
    /// The parameter registry: pairs of node id and node index.
    spec fn registry(&self) -> Seq<(u32, usize)>;

    /// The most recent call's input node, if any call happened.
    spec fn last_input(&self) -> Option<usize>;

    /// The most recent call's output node, if any call happened.
    spec fn last_output(&self) -> Option<usize>;

    /// The generation captured from the most recent call's input.
    spec fn gen_of(&self) -> i32;

    /// The layer's own id.
    spec fn id_of(&self) -> u32;

    /// The layer's internal consistency relative to a graph.
    spec fn valid(&self, g: &Graph<A>) -> bool;

    /// The layer's fixed configuration: output size, weight id, bias id.
    spec fn config(&self) -> (u32, Option<u32>, Option<u32>);

    /// Registers a parameter handle under its node id; re-registering the
    /// same node is a no-op.
    fn set_params(&mut self, g: &Graph<A>, param: usize)
        requires
            old(self).valid(g),
            g.wf(),
            param < g.nodes@.len(),
        ensures
            final(self).valid(g),
            reg_find(final(self).registry(), g.nodes@[param as int].id) == Some(param),
            final(self).registry().len() == old(self).registry().len() + (if reg_find(
                old(self).registry(),
                g.nodes@[param as int].id,
            ) is Some {
                0int
            } else {
                1int
            }),
            reg_find(old(self).registry(), g.nodes@[param as int].id) is None
                ==> final(self).registry() == old(self).registry().push(
                (g.nodes@[param as int].id, param),
            ),
            reg_find(old(self).registry(), g.nodes@[param as int].id) is Some
                ==> final(self).registry() == old(self).registry(),
            forall|id2: u32|
                id2 != g.nodes@[param as int].id ==> reg_find(final(self).registry(), id2)
                    == reg_find(old(self).registry(), id2),
            forall|j: int|
                reg_has_idx(old(self).registry(), j) ==> reg_has_idx(final(self).registry(), j),
            final(self).last_input() == old(self).last_input(),
            final(self).last_output() == old(self).last_output(),
            final(self).gen_of() == old(self).gen_of(),
            final(self).id_of() == old(self).id_of(),
            final(self).config() == old(self).config(),
    ;

    /// The most recent input: absent before the first call is a contract
    /// violation.
    fn get_input(&self) -> (r: usize)
        requires
            self.last_input() is Some,
        ensures
            r == self.last_input().unwrap(),
    ;

    /// The most recent output: absent before the first call is a contract
    /// violation.
    fn get_output(&self) -> (r: usize)
        requires
            self.last_output() is Some,
        ensures
            r == self.last_output().unwrap(),
    ;

    /// The generation of the most recent call.
    fn get_generation(&self) -> (r: i32)
        ensures
            r == self.gen_of(),
    ;

    /// The layer's id.
    fn get_id(&self) -> (r: u32)
        ensures
            r == self.id_of(),
    ;

    /// Read-only enumeration of the registered parameters.
    fn params(&self) -> (r: &Vec<(u32, usize)>)
        ensures
            r@ == self.registry(),
    ;

    /// Resets every registered parameter's gradient to absent; every other
    /// node keeps its gradient.
    fn cleargrad(&mut self, g: &mut Graph<A>)
        requires
            old(self).valid(old(g)),
            old(g).wf(),
        ensures
            final(self).registry() == old(self).registry(),
            final(self).last_input() == old(self).last_input(),
            final(self).last_output() == old(self).last_output(),
            final(self).gen_of() == old(self).gen_of(),
            final(self).id_of() == old(self).id_of(),
            final(self).config() == old(self).config(),
            final(g).wf(),
            final(self).valid(final(g)),
            final(g).nodes@.len() == old(g).nodes@.len(),
            final(g).records@ == old(g).records@,
            final(g).next_id == old(g).next_id,
            forall|j: int|
                0 <= j < old(g).nodes@.len() ==> eq_but_grad(
                    old(g).nodes@[j],
                    #[trigger] final(g).nodes@[j],
                ),
            forall|j: int|
                0 <= j < old(g).nodes@.len() && reg_has_idx(old(self).registry(), j)
                    ==> (#[trigger] final(g).nodes@[j].grad) is None,
            forall|j: int|
                0 <= j < old(g).nodes@.len() && !reg_has_idx(old(self).registry(), j)
                    ==> #[trigger] final(g).nodes@[j] == old(g).nodes@[j],
    ;
}

/// The linear layer: a lazily initialized weight, an optional bias, and a
/// forward computation that delegates to the linear primitive.
#[verifier::reject_recursive_types(A)]
pub struct Linear<A> {
    pub input: Option<usize>,
    pub output: Option<usize>,
    pub out_size: u32,
    pub w_id: Option<u32>,
    pub b_id: Option<u32>,
    pub params: Vec<(u32, usize)>,
    pub generation: i32,
    pub id: u32,
    pub marker: core::marker::PhantomData<A>,
}

impl<A> Linear<A> {
    /// Linear search of the registry, front first.
    fn find_param(&self, id: u32) -> (r: Option<usize>)
        ensures
            r == reg_find(self.params@, id),
    {
        let mut k: usize = 0;
        proof {
            assert(self.params@.skip(0) =~= self.params@);
        }
        while k < self.params.len()
            invariant
                k <= self.params@.len(),
                reg_find(self.params@, id) == reg_find(self.params@.skip(k as int), id),
            decreases self.params@.len() - k,
        {
            proof {
                assert(self.params@.skip(k as int)[0] == self.params@[k as int]);
                assert(self.params@.skip(k as int).drop_first() =~= self.params@.skip(
                    k as int + 1,
                ));
            }
            if self.params[k].0 == id {
                return Some(self.params[k].1);
            }
            k = k + 1;
        }
        proof {
            assert(self.params@.skip(self.params@.len() as int) =~= Seq::<(u32, usize)>::empty());
        }
        None
    }
}

impl<A> Layer<A> for Linear<A> {
    open spec fn registry(&self) -> Seq<(u32, usize)> {
        self.params@
    }

    open spec fn last_input(&self) -> Option<usize> {
        self.input
    }

    open spec fn last_output(&self) -> Option<usize> {
        self.output
    }

    open spec fn gen_of(&self) -> i32 {
        self.generation
    }

    open spec fn id_of(&self) -> u32 {
        self.id
    }

    open spec fn config(&self) -> (u32, Option<u32>, Option<u32>) {
        (self.out_size, self.w_id, self.b_id)
    }

    open spec fn valid(&self, g: &Graph<A>) -> bool {
        &&& forall|k: int|
            0 <= k < self.params@.len() ==> {
                let e = #[trigger] self.params@[k];
                &&& e.1 < g.nodes@.len()
                &&& g.nodes@[e.1 as int].id == e.0
            }
        &&& forall|k1: int, k2: int|
            0 <= k1 < k2 < self.params@.len() ==> (#[trigger] self.params@[k1]).0 != (
            #[trigger] self.params@[k2]).0
        &&& match self.w_id {
            Some(wid) => {
                let f = reg_find(self.params@, wid);
                &&& f is Some
                &&& f.unwrap() < g.nodes@.len()
                &&& g.nodes@[f.unwrap() as int].data@.len() == 2
                &&& g.nodes@[f.unwrap() as int].data@[1] == self.out_size as usize
            },
            None => true,
        }
        &&& match self.b_id {
            Some(bid) => {
                let f = reg_find(self.params@, bid);
                &&& f is Some
                &&& f.unwrap() < g.nodes@.len()
                &&& g.nodes@[f.unwrap() as int].data@ == seq![self.out_size as usize]
            },
            None => true,
        }
        &&& match self.input {
            Some(i) => i < g.nodes@.len(),
            None => true,
        }
        &&& match self.output {
            Some(i) => i < g.nodes@.len(),
            None => true,
        }
    }

    fn set_params(&mut self, g: &Graph<A>, param: usize) {
        let id = g.nodes[param].id;
        match self.find_param(id) {
            Some(found) => {
                proof {
                    lemma_find_entry(self.params@, id);
                    let k = choose|k: int|
                        0 <= k < self.params@.len() && (#[trigger] self.params@[k]).0 == id
                            && self.params@[k].1 == found;
                    assert(g.nodes@[self.params@[k].1 as int].id == id);
                    if self.params@[k].1 != param {
                        let j1 = self.params@[k].1 as int;
                        let j2 = param as int;
                        if j1 < j2 {
                            assert(g.nodes@[j1].id < g.nodes@[j2].id);
                        } else {
                            assert(g.nodes@[j2].id < g.nodes@[j1].id);
                        }
                        assert(false);
                    }
                }
            },
            None => {
                proof {
                    lemma_find_none(self.params@, id);
                }
                self.params.push((id, param));
                proof {
                    assert forall|id2: u32| true implies reg_find(
                        self.params@,
                        id2,
                    ) == (if reg_find(old(self).params@, id2) is Some {
                        reg_find(old(self).params@, id2)
                    } else if id == id2 {
                        Some(param)
                    } else {
                        None
                    }) by {
                        lemma_find_push(old(self).params@, (id, param), id2);
                    }
                    assert forall|j: int|
                        reg_has_idx(old(self).params@, j) implies reg_has_idx(
                        self.params@,
                        j,
                    ) by {
                        let k = choose|k: int|
                            0 <= k < old(self).params@.len() && (#[trigger] old(self).params@[k]).1
                                == j;
                        assert(self.params@[k].1 == j);
                    }
                    match self.w_id {
                        Some(wid) => {
                            assert(reg_find(old(self).params@, wid) is Some);
                        },
                        None => {},
                    }
                    match self.b_id {
                        Some(bid) => {
                            assert(reg_find(old(self).params@, bid) is Some);
                        },
                        None => {},
                    }
                }
            },
        }
    }

    fn get_input(&self) -> (r: usize) {
        self.input.unwrap()
    }

    fn get_output(&self) -> (r: usize) {
        self.output.unwrap()
    }

    fn get_generation(&self) -> (r: i32) {
        self.generation
    }

    fn get_id(&self) -> (r: u32) {
        self.id
    }

    fn params(&self) -> (r: &Vec<(u32, usize)>) {
        &self.params
    }

    fn cleargrad(&mut self, g: &mut Graph<A>) {
        let mut k: usize = 0;
        while k < self.params.len()
            invariant
                *self == *old(self),
                old(self).valid(old(g)),
                old(g).wf(),
                g.wf(),
                k <= self.params@.len(),
                g.nodes@.len() == old(g).nodes@.len(),
                g.records@ == old(g).records@,
                g.next_id == old(g).next_id,
                forall|j: int|
                    0 <= j < old(g).nodes@.len() ==> eq_but_grad(
                        old(g).nodes@[j],
                        #[trigger] g.nodes@[j],
                    ),
                forall|j: int|
                    0 <= j < old(g).nodes@.len() && (exists|t: int|
                        0 <= t < k && (#[trigger] self.params@[t]).1 == j) ==> g.nodes@[j].grad
                        is None,
                forall|j: int|
                    0 <= j < old(g).nodes@.len() && (forall|t: int|
                        0 <= t < k ==> (#[trigger] self.params@[t]).1 != j)
                        ==> #[trigger] g.nodes@[j] == old(g).nodes@[j],
            decreases self.params@.len() - k,
        {
            let idx = self.params[k].1;
            proof {
                assert(old(self).valid(old(g)));
                assert(old(self).params@[k as int].1 < old(g).nodes@.len());
            }
            let node = &mut g.nodes[idx];
            node.grad = None;
            proof {
                let gprev = *old(g);
                assert forall|j: int| 0 <= j < gprev.nodes@.len() implies node_frame(
                    gprev.nodes@[j],
                    #[trigger] g.nodes@[j],
                ) by {}
                assert forall|j: int| 0 <= j < g.nodes@.len() implies match #[trigger] g.nodes@[j].grad {
                    Some(gi) => gi < g.nodes@.len() && g.nodes@[gi as int].data@
                        == g.nodes@[j].data@,
                    None => true,
                } by {
                    if j != idx {
                        match g.nodes@[j].grad {
                            Some(gi) => {
                                assert(old(g).node_ok(j));
                                assert(g.nodes@[j].grad == old(g).nodes@[j].grad);
                            },
                            None => {},
                        }
                    }
                }
                assert forall|j: int| 0 <= j < gprev.nodes@.len() implies node_frame(
                    gprev.nodes@[j],
                    g.nodes@[j],
                ) && g.nodes@[j].data.wf() by {
                    assert(gprev.node_ok(j));
                }
                crate::graph::lemma_wf_extended(gprev, *g);
            }
            k = k + 1;
        }
        proof {
            assert forall|j: int|
                0 <= j < old(g).nodes@.len() && reg_has_idx(old(self).registry(), j) implies g.nodes@[j].grad
                is None by {
                let t = choose|t: int|
                    0 <= t < old(self).params@.len() && (#[trigger] old(self).params@[t]).1 == j;
                assert(self.params@[t].1 == j);
            }
        }
    }
}

/// A layer's validity only reads node frames: it survives every graph step
/// that keeps old nodes' frames, such as forward calls, backward traversal
/// and parameter updates.
pub proof fn lemma_valid_extended<A>(l: Linear<A>, g1: Graph<A>, g2: Graph<A>)
    requires
        l.valid(&g1),
        g2.nodes@.len() >= g1.nodes@.len(),
        forall|j: int|
            0 <= j < g1.nodes@.len() ==> node_frame(g1.nodes@[j], #[trigger] g2.nodes@[j]),
    ensures
        l.valid(&g2),
{
    assert forall|k: int| 0 <= k < l.params@.len() implies {
        let e = #[trigger] l.params@[k];
        &&& e.1 < g2.nodes@.len()
        &&& g2.nodes@[e.1 as int].id == e.0
    } by {
        assert(node_frame(g1.nodes@[l.params@[k].1 as int], g2.nodes@[l.params@[k].1 as int]));
    }
    match l.w_id {
        Some(wid) => {
            let f = reg_find(l.params@, wid).unwrap() as int;
            assert(node_frame(g1.nodes@[f], g2.nodes@[f]));
        },
        None => {},
    }
    match l.b_id {
        Some(bid) => {
            let f = reg_find(l.params@, bid).unwrap() as int;
            assert(node_frame(g1.nodes@[f], g2.nodes@[f]));
        },
        None => {},
    }
}

/// Every key bound in a registry whose entries all point below `bound` is
/// smaller than the id of the node at `bound`: freshly created nodes never
/// collide with registered keys.
proof fn lemma_old_keys_small<A>(params: Seq<(u32, usize)>, g: Graph<A>, bound: usize)
    requires
        g.wf(),
        bound < g.nodes@.len(),
        forall|k: int|
            0 <= k < params.len() ==> (#[trigger] params[k]).1 < bound && g.nodes@[params[k].1 as int].id
                == params[k].0,
    ensures
        forall|k: int| 0 <= k < params.len() ==> (#[trigger] params[k]).0 < g.nodes@[bound as int].id,
{
    assert forall|k: int| 0 <= k < params.len() implies (#[trigger] params[k]).0 < g.nodes@[
        bound as int
    ].id by {
        assert(g.nodes@[params[k].1 as int].id < g.nodes@[bound as int].id);
    }
}

impl<A: ndarray::LinalgScalar + num_traits::Float> Linear<A> where
    ndarray_rand::rand_distr::StandardNormal: ndarray_rand::rand::distr::Distribution<A>,
 {
    /// Builds a linear layer. The weight is sampled now, scaled by
    /// `1 / sqrt(in_size)`, if the input size is known; else it is created
    /// lazily on the first call. The bias, if requested, starts at zero.
    pub fn new(g: &mut Graph<A>, out_size: u32, biased: bool, opt_in_size: Option<u32>) -> (l:
        Linear<A>)
        requires
            old(g).wf(),
            1 <= out_size,
            out_size <= tensor::SIZE_LIMIT,
            old(g).next_id as int + 3 <= u32::MAX,
            match opt_in_size {
                Some(i) => 1 <= i && i * out_size <= tensor::SIZE_LIMIT,
                None => true,
            },
        ensures
            final(g).wf(),
            l.valid(final(g)),
            final(g).records@ == old(g).records@,
            final(g).nodes@.len() >= old(g).nodes@.len(),
            forall|j: int| 0 <= j < old(g).nodes@.len() ==> final(g).nodes@[j] == old(g).nodes@[j],
            l.id == old(g).next_id,
            final(g).next_id >= old(g).next_id + 1,
            final(g).next_id <= old(g).next_id + 3,
            l.out_size == out_size,
            l.generation == 0,
            l.input is None,
            l.output is None,
            l.w_id is Some <==> opt_in_size is Some,
            l.b_id is Some <==> biased,
            l.params@.len() == (if opt_in_size is Some {
                1int
            } else {
                0int
            }) + (if biased {
                1int
            } else {
                0int
            }),
            match opt_in_size {
                Some(i) => {
                    let f = reg_find(l.params@, l.w_id.unwrap());
                    f is Some && final(g).nodes@[f.unwrap() as int].data@ == seq![
                        i as usize,
                        out_size as usize,
                    ]
                },
                None => true,
            },
            biased ==> {
                let f = reg_find(l.params@, l.b_id.unwrap());
                f is Some && final(g).nodes@[f.unwrap() as int].data@ == seq![out_size as usize]
            },
            forall|j: int|
                old(g).nodes@.len() <= j < final(g).nodes@.len()
                    ==> (#[trigger] final(g).nodes@[j].grad) is None,
    {
        let id = g.fresh_id();
        let mut l = Linear {
            input: None,
            output: None,
            out_size,
            w_id: None,
            b_id: None,
            params: Vec::new(),
            generation: 0,
            id,
            marker: core::marker::PhantomData,
        };
        match opt_in_size {
            Some(in_size) => {
                let i = in_size as usize;
                let o = out_size as usize;
                let wdata = tensor::scale(
                    &tensor::random_standard_normal(i, o),
                    tensor::recip_sqrt::<A>(i),
                );
                let widx = g.new_leaf(wdata);
                let wid = g.nodes[widx].id;
                proof {
                    assert(l.params@.len() == 0);
                    assert(reg_find(l.params@, g.nodes@[widx as int].id) is None);
                }
                l.set_params(g, widx);
                l.w_id = Some(wid);
                proof {
                    assert(g.nodes@[widx as int].data@ == seq![i, o]);
                    assert(seq![i, o][1] == o);
                    assert(reg_find(l.params@, wid) == Some(widx));
                    assert(l.valid(g));
                }
            },
            None => {},
        }
        if biased {
            let ghost g2 = *g;
            let ghost l2 = l;
            let bdata = tensor::zeros(out_size as usize);
            let bidx = g.new_leaf(bdata);
            let bid = g.nodes[bidx].id;
            proof {
                assert forall|j: int| 0 <= j < g2.nodes@.len() implies node_frame(
                    g2.nodes@[j],
                    #[trigger] g.nodes@[j],
                ) by {}
                lemma_valid_extended(l, g2, *g);
                lemma_old_keys_small(l.params@, *g, bidx);
                lemma_find_absent(l.params@, bid);
                match l.w_id {
                    Some(wid) => {
                        lemma_find_entry(l.params@, wid);
                    },
                    None => {},
                }
            }
            l.set_params(g, bidx);
            l.b_id = Some(bid);
            proof {
                assert(reg_find(l.params@, bid) == Some(bidx));
                assert(g.nodes@[bidx as int].data@ == seq![out_size as usize]);
                match l.w_id {
                    Some(wid) => {
                        assert(wid != bid);
                        assert(reg_find(l.params@, wid) == reg_find(l2.params@, wid));
                    },
                    None => {},
                }
                assert(l.valid(g));
            }
        }
        l
    }

    /// One forward invocation: lazily initializes the weight from the input's
    /// feature width if needed, then delegates to the linear primitive, which
    /// records the operation for later backward traversal.
    fn forward(&mut self, g: &mut Graph<A>, x: usize) -> (y: usize)
        requires
            old(self).valid(old(g)),
            old(g).wf(),
            x < old(g).nodes@.len(),
            old(g).nodes@[x as int].data@.len() == 2,
            1 <= old(self).out_size,
            old(self).out_size <= tensor::SIZE_LIMIT,
            old(g).nodes@[x as int].data@[0] * old(self).out_size <= tensor::SIZE_LIMIT,
            match old(self).w_id {
                Some(wid) => old(g).nodes@[reg_find(old(self).params@, wid).unwrap() as int].data@[0]
                    == old(g).nodes@[x as int].data@[1],
                None => 1 <= old(g).nodes@[x as int].data@[1] && old(g).nodes@[x as int].data@[1]
                    * old(self).out_size <= tensor::SIZE_LIMIT,
            },
            old(g).next_id as int + 2 <= u32::MAX,
            old(g).records@.len() < 0x7fff_ffff,
        ensures
            final(g).wf(),
            final(self).valid(final(g)),
            y < final(g).nodes@.len(),
            final(g).nodes@[y as int].data@ == seq![
                old(g).nodes@[x as int].data@[0],
                old(self).out_size as usize,
            ],
            final(g).nodes@[y as int].creator == Some((final(g).records@.len() - 1) as usize),
            final(g).nodes@[y as int].grad is None,
            final(g).records@.len() == old(g).records@.len() + 1,
            final(g).next_id <= old(g).next_id + 2,
            final(g).records@.last().op == (OpKind::Linear { biased: old(self).b_id is Some }),
            final(g).records@.last().output == y,
            ({
                let widx = reg_find(final(self).params@, final(self).w_id.unwrap()).unwrap();
                &&& final(g).records@.last().inputs@ == (match old(self).b_id {
                    Some(bid) => seq![x, widx, reg_find(final(self).params@, bid).unwrap()],
                    None => seq![x, widx],
                })
                &&& widx < final(g).nodes@.len()
                &&& final(g).nodes@[widx as int].data@ == seq![
                    old(g).nodes@[x as int].data@[1],
                    old(self).out_size as usize,
                ]
                &&& (old(self).w_id is None ==> final(self).params@ == old(self).params@.push(
                    (final(self).w_id.unwrap(), widx),
                ))
            }),
            final(g).nodes@.len() <= old(g).nodes@.len() + 2,
            final(g).nodes@.len() > old(g).nodes@.len(),
            forall|j: int| 0 <= j < old(g).nodes@.len() ==> final(g).nodes@[j] == old(g).nodes@[j],
            forall|r: int|
                0 <= r < old(g).records@.len() ==> final(g).records@[r] == old(g).records@[r],
            old(self).w_id is Some ==> final(self).w_id == old(self).w_id && final(self).params@
                == old(self).params@,
            final(self).w_id is Some,
            final(self).b_id == old(self).b_id,
            final(self).out_size == old(self).out_size,
            final(self).input == old(self).input,
            final(self).output == old(self).output,
            final(self).generation == old(self).generation,
            final(self).id == old(self).id,
    {
        if self.w_id.is_none() {
            let i_dim = g.nodes[x].data.shape()[1];
            let o = self.out_size as usize;
            let wdata = tensor::scale(
                &tensor::random_standard_normal(i_dim, o),
                tensor::recip_sqrt::<A>(i_dim),
            );
            let ghost g2 = *g;
            let ghost l2 = *self;
            let widx = g.new_leaf(wdata);
            let wid = g.nodes[widx].id;
            proof {
                assert forall|j: int| 0 <= j < g2.nodes@.len() implies node_frame(
                    g2.nodes@[j],
                    #[trigger] g.nodes@[j],
                ) by {}
                lemma_valid_extended(*self, g2, *g);
                lemma_old_keys_small(self.params@, *g, widx);
                lemma_find_absent(self.params@, wid);
                match self.b_id {
                    Some(bid0) => {
                        lemma_find_entry(self.params@, bid0);
                    },
                    None => {},
                }
            }
            self.set_params(g, widx);
            self.w_id = Some(wid);
            proof {
                assert(g.nodes@[widx as int].data@ == seq![i_dim, o]);
                assert(seq![i_dim, o][1] == o);
                assert(reg_find(self.params@, wid) == Some(widx));
                match self.b_id {
                    Some(bid0) => {
                        assert(bid0 != wid);
                        assert(reg_find(self.params@, bid0) == reg_find(l2.params@, bid0));
                    },
                    None => {},
                }
                assert(self.valid(g));
            }
        }
        let wid = self.w_id.unwrap();
        let widx = self.find_param(wid).unwrap();
        proof {
            assert(self.valid(g));
        }
        let b = match self.b_id {
            Some(bid) => Some(self.find_param(bid).unwrap()),
            None => None,
        };
        let ghost g1 = *g;
        let y = g.apply_linear(x, widx, b);
        proof {
            assert forall|j: int| 0 <= j < g1.nodes@.len() implies node_frame(
                g1.nodes@[j],
                #[trigger] g.nodes@[j],
            ) by {}
            lemma_valid_extended(*self, g1, *g);
        }
        y
    }

    /// One forward call: computes the output, then remembers the input and
    /// output handles and captures the input's generation as the layer's own.
    pub fn call(&mut self, g: &mut Graph<A>, input: usize) -> (output: usize)
        requires
            old(self).valid(old(g)),
            old(g).wf(),
            input < old(g).nodes@.len(),
            old(g).nodes@[input as int].data@.len() == 2,
            1 <= old(self).out_size,
            old(self).out_size <= tensor::SIZE_LIMIT,
            old(g).nodes@[input as int].data@[0] * old(self).out_size <= tensor::SIZE_LIMIT,
            match old(self).w_id {
                Some(wid) => old(g).nodes@[reg_find(old(self).params@, wid).unwrap() as int].data@[0]
                    == old(g).nodes@[input as int].data@[1],
                None => 1 <= old(g).nodes@[input as int].data@[1] && old(g).nodes@[input as int].data@[1]
                    * old(self).out_size <= tensor::SIZE_LIMIT,
            },
            old(g).next_id as int + 2 <= u32::MAX,
            old(g).records@.len() < 0x7fff_ffff,
        ensures
            final(g).wf(),
            final(self).valid(final(g)),
            output < final(g).nodes@.len(),
            final(g).nodes@[output as int].data@ == seq![
                old(g).nodes@[input as int].data@[0],
                old(self).out_size as usize,
            ],
            final(g).nodes@[output as int].creator == Some(
                (final(g).records@.len() - 1) as usize,
            ),
            final(g).records@.len() == old(g).records@.len() + 1,
            final(g).nodes@.len() > old(g).nodes@.len(),
            final(g).next_id <= old(g).next_id + 2,
            final(g).records@.last().op == (OpKind::Linear { biased: old(self).b_id is Some }),
            final(g).records@.last().output == output,
            ({
                let widx = reg_find(final(self).params@, final(self).w_id.unwrap()).unwrap();
                &&& final(g).records@.last().inputs@ == (match old(self).b_id {
                    Some(bid) => seq![input, widx, reg_find(final(self).params@, bid).unwrap()],
                    None => seq![input, widx],
                })
                &&& widx < final(g).nodes@.len()
                &&& final(g).nodes@[widx as int].data@ == seq![
                    old(g).nodes@[input as int].data@[1],
                    old(self).out_size as usize,
                ]
                &&& (old(self).w_id is None ==> final(self).params@ == old(self).params@.push(
                    (final(self).w_id.unwrap(), widx),
                ))
            }),
            forall|j: int| 0 <= j < old(g).nodes@.len() ==> final(g).nodes@[j] == old(g).nodes@[j],
            forall|r: int|
                0 <= r < old(g).records@.len() ==> final(g).records@[r] == old(g).records@[r],
            old(self).w_id is Some ==> final(self).w_id == old(self).w_id && final(self).params@
                == old(self).params@,
            final(self).w_id is Some,
            final(self).input == Some(input),
            final(self).output == Some(output),
            final(self).generation == old(g).nodes@[input as int].generation,
            final(self).id == old(self).id,
            final(self).out_size == old(self).out_size,
            final(self).b_id == old(self).b_id,
    {
        let output = self.forward(g, input);
        self.input = Some(input);
        self.generation = g.nodes[input].generation;
        self.output = Some(output);
        output
    }
}

impl<A: ndarray::LinalgScalar> Linear<A> {
    /// Gradient-descent step: every registered parameter's data becomes
    /// `data - lr * grad`, in place. Querying a parameter whose gradient was
    /// never computed is a contract violation, so every parameter must carry
    /// a gradient. Gradients are not cleared.
    pub fn update_params(&mut self, g: &mut Graph<A>, lr: A)
        requires
            old(self).valid(old(g)),
            old(g).wf(),
            forall|k: int|
                0 <= k < old(self).params@.len() ==> old(g).nodes@[(#[trigger] old(
                    self,
                ).params@[k]).1 as int].grad is Some,
        ensures
            final(g).wf(),
            *final(self) == *old(self),
            final(self).valid(final(g)),
            final(g).records@ == old(g).records@,
            final(g).nodes@.len() == old(g).nodes@.len(),
            final(g).next_id == old(g).next_id,
            forall|j: int|
                0 <= j < old(g).nodes@.len() ==> eq_but_data(
                    old(g).nodes@[j],
                    #[trigger] final(g).nodes@[j],
                ),
            forall|j: int|
                0 <= j < old(g).nodes@.len() && !reg_has_idx(old(self).params@, j)
                    ==> #[trigger] final(g).nodes@[j] == old(g).nodes@[j],
    {
        let mut k: usize = 0;
        while k < self.params.len()
            invariant
                *self == *old(self),
                old(self).valid(old(g)),
                old(g).wf(),
                g.wf(),
                k <= self.params@.len(),
                g.records@ == old(g).records@,
                g.nodes@.len() == old(g).nodes@.len(),
                g.next_id == old(g).next_id,
                forall|t: int|
                    0 <= t < old(self).params@.len() ==> old(g).nodes@[(#[trigger] old(
                        self,
                    ).params@[t]).1 as int].grad is Some,
                forall|j: int|
                    0 <= j < old(g).nodes@.len() ==> eq_but_data(
                        old(g).nodes@[j],
                        #[trigger] g.nodes@[j],
                    ),
                forall|j: int|
                    0 <= j < old(g).nodes@.len() && (forall|t: int|
                        0 <= t < k ==> (#[trigger] self.params@[t]).1 != j)
                        ==> #[trigger] g.nodes@[j] == old(g).nodes@[j],
            decreases self.params@.len() - k,
        {
            let idx = self.params[k].1;
            proof {
                assert(old(self).valid(old(g)));
                assert((old(self).params@[k as int]).1 < old(g).nodes@.len());
                assert(g.node_ok(idx as int));
            }
            let gi = g.nodes[idx].grad.unwrap();
            let scaled = tensor::scale(&g.nodes[gi].data, lr);
            let nd = tensor::sub_same(&g.nodes[idx].data, &scaled);
            let ghost gprev = *g;
            let node = &mut g.nodes[idx];
            node.data = nd;
            proof {
                assert forall|j: int| 0 <= j < gprev.nodes@.len() implies node_frame(
                    gprev.nodes@[j],
                    #[trigger] g.nodes@[j],
                ) && g.nodes@[j].data.wf() by {
                    assert(gprev.node_ok(j));
                    if j != idx {
                        assert(g.nodes@[j] == gprev.nodes@[j]);
                    }
                }
                assert forall|j: int| 0 <= j < g.nodes@.len() implies match #[trigger] g.nodes@[j].grad {
                    Some(gg) => gg < g.nodes@.len() && g.nodes@[gg as int].data@ == g.nodes@[j].data@,
                    None => true,
                } by {
                    assert(gprev.node_ok(j));
                    match g.nodes@[j].grad {
                        Some(gg) => {
                            assert(g.nodes@[j].grad == gprev.nodes@[j].grad);
                        },
                        None => {},
                    }
                }
                crate::graph::lemma_wf_extended(gprev, *g);
            }
            k = k + 1;
        }
        proof {
            lemma_valid_extended(*self, *old(g), *g);
        }
    }
}

} // verus!
