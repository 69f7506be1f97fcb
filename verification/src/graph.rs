use vstd::prelude::*;
use crate::tensor;
use crate::tensor::Tensor;

verus! {

/// One value in the computation graph: an owned tensor, an optional
/// accumulated gradient (the index of another node, so gradients are
/// first-class graph values), an optional back-reference to the operation
/// record that produced it, a generation counter, and a process-unique id.
#[verifier::reject_recursive_types(A)]
pub struct Node<A> {
    pub data: Tensor<A>,
    pub grad: Option<usize>,
    pub creator: Option<usize>,
    pub generation: i32,
    pub id: u32,
}

/// The primitive operations the engine records. The catalogue is open-ended;
/// these are the ones the linear layer and its tests exercise.
#[derive(Clone, Copy)]
pub enum OpKind {
    /// `output = input . weight (+ bias)`, with inputs `[input, weight]` or
    /// `[input, weight, bias]`.
    Linear { biased: bool },
    /// Elementwise addition of two same-shaped inputs.
    AddSame,
    /// Sum of all elements, to a zero-axis tensor.
    SumAll,
}

/// One executed primitive: its input node indices, its output node index, and
/// its generation, the maximum of its inputs' generations.
pub struct Record {
    pub op: OpKind,
    pub inputs: Vec<usize>,
    pub output: usize,
    pub generation: i32,
}

/// The computation graph: an arena of nodes and operation records, plus the
/// injectable id allocator that every graph entity draws from. The arena never
/// reclaims nodes: a spent forward pass's intermediates live as long as the
/// graph, where the original design reclaims them by reference count. Callers
/// that train over many passes should start a fresh graph per pass.
#[verifier::reject_recursive_types(A)]
pub struct Graph<A> {
    pub nodes: Vec<Node<A>>,
    pub records: Vec<Record>,
    pub next_id: u32,
}

/// The largest generation among the given input nodes; 0 if there are none.
pub open spec fn max_input_gen<A>(nodes: Seq<Node<A>>, inputs: Seq<usize>) -> int
    decreases inputs.len(),
{
    if inputs.len() == 0 {
        0
    } else {
        let rest = max_input_gen(nodes, inputs.drop_last());
        let g = nodes[inputs.last() as int].generation as int;
        if g > rest {
            g
        } else {
            rest
        }
    }
}

/// The fields of a node that backward traversal and parameter updates never
/// change: everything but the gradient and the tensor contents (the data keeps
/// its shape).
pub open spec fn node_frame<A>(n1: Node<A>, n2: Node<A>) -> bool {
    &&& n2.data@ == n1.data@
    &&& n2.creator == n1.creator
    &&& n2.generation == n1.generation
    &&& n2.id == n1.id
}

/// Everything of a node but its gradient, the tensor value included: what
/// gradient accumulation, backward traversal and gradient clearing leave
/// untouched.
pub open spec fn eq_but_grad<A>(n1: Node<A>, n2: Node<A>) -> bool {
    &&& n2.data == n1.data
    &&& n2.creator == n1.creator
    &&& n2.generation == n1.generation
    &&& n2.id == n1.id
}

/// Everything of a node but its tensor contents: what an in-place parameter
/// update leaves untouched. The tensor keeps its shape.
pub open spec fn eq_but_data<A>(n1: Node<A>, n2: Node<A>) -> bool {
    &&& n2.data@ == n1.data@
    &&& n2.grad == n1.grad
    &&& n2.creator == n1.creator
    &&& n2.generation == n1.generation
    &&& n2.id == n1.id
}

impl<A> Graph<A> {
    /// Well-formedness of one node: its gradient, if present, is a live node
    /// of the same shape; its creator, if present, is a live record that
    /// produced it; its generation is the node's depth; its id was drawn from
    /// the allocator.
    pub open spec fn node_ok(&self, i: int) -> bool {
        let n = self.nodes@[i];
        &&& n.data.wf()
        &&& match n.grad {
            Some(gi) => {
                &&& gi < self.nodes@.len()
                &&& self.nodes@[gi as int].data@ == n.data@
            },
            None => true,
        }
        &&& match n.creator {
            Some(r) => {
                &&& r < self.records@.len()
                &&& self.records@[r as int].output == i
            },
            None => n.generation == 0,
        }
        &&& 0 <= n.generation <= self.records@.len()
        &&& n.id < self.next_id
    }

    /// The shape discipline of one record: arity and input/output shapes match
    /// its operation, so that the backward rule of the operation applies.
    pub open spec fn record_shapes_ok(&self, r: int) -> bool {
        let rec = self.records@[r];
        let out_sh = self.nodes@[rec.output as int].data@;
        match rec.op {
            OpKind::Linear { biased } => {
                let xs = self.nodes@[rec.inputs@[0] as int].data@;
                let ws = self.nodes@[rec.inputs@[1] as int].data@;
                &&& rec.inputs@.len() == (if biased { 3int } else { 2int })
                &&& xs.len() == 2
                &&& ws.len() == 2
                &&& xs[1] == ws[0]
                &&& out_sh == seq![xs[0], ws[1]]
                &&& (biased ==> self.nodes@[rec.inputs@[2] as int].data@ == seq![ws[1]])
            },
            OpKind::AddSame => {
                &&& rec.inputs@.len() == 2
                &&& self.nodes@[rec.inputs@[0] as int].data@ == out_sh
                &&& self.nodes@[rec.inputs@[1] as int].data@ == out_sh
            },
            OpKind::SumAll => {
                &&& rec.inputs@.len() == 1
                &&& out_sh.len() == 0
            },
        }
    }

    /// Well-formedness of one record: live indices, the generation law
    /// (`record.generation == max(generation of its inputs)`, and the output
    /// node one generation deeper), the back-reference from its output, and
    /// the shape discipline of its operation.
    pub open spec fn record_ok(&self, r: int) -> bool {
        let rec = self.records@[r];
        &&& rec.output < self.nodes@.len()
        &&& 1 <= rec.inputs@.len() <= 3
        &&& forall|k: int| 0 <= k < rec.inputs@.len() ==> #[trigger] rec.inputs@[k] < self.nodes@.len()
        &&& rec.generation == max_input_gen(self.nodes@, rec.inputs@)
        &&& self.nodes@[rec.output as int].creator == Some(r as usize)
        &&& self.nodes@[rec.output as int].generation == rec.generation + 1
        &&& self.record_shapes_ok(r)
    }

    /// Well-formedness of the whole graph. Node ids strictly increase with the
    /// order of creation, so ids are unique across the graph.
    pub open spec fn wf(&self) -> bool {
        &&& forall|i: int| 0 <= i < self.nodes@.len() ==> #[trigger] self.node_ok(i)
        &&& forall|r: int| 0 <= r < self.records@.len() ==> #[trigger] self.record_ok(r)
        &&& forall|j: int, k: int|
            0 <= j < k < self.nodes@.len() ==> #[trigger] self.nodes@[j].id < #[trigger] self.nodes@[k].id
    }

    /// A fresh, empty graph whose id allocator starts at 1.
    pub fn new() -> (g: Graph<A>)
        ensures
            g.wf(),
            g.nodes@.len() == 0,
            g.records@.len() == 0,
            g.next_id == 1,
    {
        Graph { nodes: Vec::new(), records: Vec::new(), next_id: 1 }
    }

    /// Adds a leaf node (an external input or a parameter) holding `data`.
    pub fn new_leaf(&mut self, data: Tensor<A>) -> (i: usize)
        requires
            old(self).wf(),
            old(self).next_id < u32::MAX,
            data.wf(),
        ensures
            final(self).wf(),
            i == old(self).nodes@.len(),
            final(self).nodes@.len() == old(self).nodes@.len() + 1,
            forall|j: int|
                0 <= j < old(self).nodes@.len() ==> final(self).nodes@[j] == old(self).nodes@[j],
            final(self).nodes@[i as int].data@ == data@,
            final(self).nodes@[i as int].grad is None,
            final(self).nodes@[i as int].creator is None,
            final(self).nodes@[i as int].generation == 0,
            final(self).nodes@[i as int].id == old(self).next_id,
            final(self).records@ == old(self).records@,
            final(self).next_id == old(self).next_id + 1,
    {
        let i = self.nodes.len();
        let id = self.next_id;
        self.next_id = id + 1;
        self.nodes.push(Node { data, grad: None, creator: None, generation: 0, id });
        proof {
            assert forall|j: int| 0 <= j < old(self).nodes@.len() implies node_frame(
                old(self).nodes@[j],
                #[trigger] self.nodes@[j],
            ) && self.nodes@[j].data.wf() by {
                assert(self.nodes@[j] == old(self).nodes@[j]);
                assert(old(self).node_ok(j));
            }
            assert forall|j: int| 0 <= j < self.nodes@.len() implies match #[trigger] self.nodes@[j].grad {
                Some(gi) => gi < self.nodes@.len() && self.nodes@[gi as int].data@
                    == self.nodes@[j].data@,
                None => true,
            } by {
                if j < old(self).nodes@.len() {
                    assert(old(self).node_ok(j));
                    match self.nodes@[j].grad {
                        Some(gi) => {
                            assert(self.nodes@[gi as int] == old(self).nodes@[gi as int]);
                        },
                        None => {},
                    }
                }
            }
            lemma_wf_extended(*old(self), *self);
        }
        i
    }

    /// Draws one fresh id from the allocator without creating a node: layers
    /// and nodes share one id namespace.
    pub fn fresh_id(&mut self) -> (id: u32)
        requires
            old(self).wf(),
            old(self).next_id < u32::MAX,
        ensures
            final(self).wf(),
            final(self).nodes@ == old(self).nodes@,
            final(self).records@ == old(self).records@,
            final(self).next_id == old(self).next_id + 1,
            id == old(self).next_id,
    {
        let id = self.next_id;
        self.next_id = id + 1;
        proof {
            assert forall|j: int| 0 <= j < self.nodes@.len() implies node_frame(
                old(self).nodes@[j],
                #[trigger] self.nodes@[j],
            ) && self.nodes@[j].data.wf() by {
                assert(old(self).node_ok(j));
            }
            assert forall|j: int| 0 <= j < self.nodes@.len() implies match #[trigger] self.nodes@[j].grad {
                Some(gi) => gi < self.nodes@.len() && self.nodes@[gi as int].data@
                    == self.nodes@[j].data@,
                None => true,
            } by {
                assert(old(self).node_ok(j));
            }
            lemma_wf_extended(*old(self), *self);
        }
        id
    }
}

impl<A: ndarray::LinalgScalar> Graph<A> {
    /// The largest generation among `inputs`, 0 if there are none.
    fn max_gen_of(&self, inputs: &Vec<usize>) -> (m: i32)
        requires
            self.wf(),
            forall|k: int| 0 <= k < inputs@.len() ==> #[trigger] inputs@[k] < self.nodes@.len(),
        ensures
            m == max_input_gen(self.nodes@, inputs@),
            0 <= m <= self.records@.len(),
    {
        let mut m: i32 = 0;
        let mut k: usize = 0;
        while k < inputs.len()
            invariant
                self.wf(),
                forall|t: int| 0 <= t < inputs@.len() ==> #[trigger] inputs@[t] < self.nodes@.len(),
                k <= inputs@.len(),
                m == max_input_gen(self.nodes@, inputs@.take(k as int)),
                0 <= m <= self.records@.len(),
            decreases inputs@.len() - k,
        {
            proof {
                assert(self.node_ok(inputs@[k as int] as int));
            }
            let g = self.nodes[inputs[k]].generation;
            if g > m {
                m = g;
            }
            k = k + 1;
            proof {
                assert(inputs@.take(k as int).drop_last() =~= inputs@.take(k as int - 1));
                assert(inputs@.take(k as int).last() == inputs@[k as int - 1]);
            }
        }
        proof {
            assert(inputs@.take(inputs@.len() as int) =~= inputs@);
        }
        m
    }

    /// Accumulates `contribution` into the gradient of node `i`: the sum if a
    /// gradient is already present, else the contribution itself. The new
    /// gradient value lives in a fresh leaf node, so gradients are themselves
    /// graph values.
    pub fn accumulate_grad(&mut self, i: usize, contribution: Tensor<A>)
        requires
            old(self).wf(),
            i < old(self).nodes@.len(),
            contribution@ == old(self).nodes@[i as int].data@,
            old(self).next_id < u32::MAX,
        ensures
            final(self).wf(),
            final(self).records@ == old(self).records@,
            final(self).next_id == old(self).next_id + 1,
            final(self).nodes@.len() == old(self).nodes@.len() + 1,
            forall|j: int|
                0 <= j < old(self).nodes@.len() && j != i ==> final(self).nodes@[j] == old(
                    self,
                ).nodes@[j],
            eq_but_grad(old(self).nodes@[i as int], final(self).nodes@[i as int]),
            final(self).nodes@[i as int].grad == Some(old(self).nodes@.len() as usize),
            final(self).nodes@.last().data@ == contribution@,
            final(self).nodes@.last().grad is None,
            final(self).nodes@.last().creator is None,
    {
        let fresh = self.nodes.len();
        let id = self.next_id;
        self.next_id = id + 1;
        proof {
            assert(old(self).node_ok(i as int));
        }
        let g0 = self.nodes[i].grad;
        let newdata = match g0 {
            None => contribution,
            Some(gi) => tensor::add_same(&self.nodes[gi].data, &contribution),
        };
        self.nodes.push(Node { data: newdata, grad: None, creator: None, generation: 0, id });
        let n = &mut self.nodes[i];
        n.grad = Some(fresh);
        proof {
            assert forall|j: int| 0 <= j < old(self).nodes@.len() implies node_frame(
                old(self).nodes@[j],
                #[trigger] self.nodes@[j],
            ) && self.nodes@[j].data.wf() by {
                assert(old(self).node_ok(j));
                if j != i {
                    assert(self.nodes@[j] == old(self).nodes@[j]);
                }
            }
            assert forall|j: int| 0 <= j < self.nodes@.len() implies match #[trigger] self.nodes@[j].grad {
                Some(gi) => gi < self.nodes@.len() && self.nodes@[gi as int].data@
                    == self.nodes@[j].data@,
                None => true,
            } by {
                if j < old(self).nodes@.len() && j != i {
                    assert(old(self).node_ok(j));
                    assert(self.nodes@[j] == old(self).nodes@[j]);
                    match self.nodes@[j].grad {
                        Some(gi) => {
                            assert(self.nodes@[gi as int].data@ == old(self).nodes@[gi as int].data@);
                        },
                        None => {},
                    }
                }
            }
            lemma_wf_extended(*old(self), *self);
        }
    }

    /// Executes the linear primitive `y = x . w (+ b)` and records it: the
    /// output is a fresh node whose creator is the fresh record.
    pub fn apply_linear(&mut self, x: usize, w: usize, b: Option<usize>) -> (y: usize)
        requires
            old(self).wf(),
            x < old(self).nodes@.len(),
            w < old(self).nodes@.len(),
            old(self).nodes@[x as int].data@.len() == 2,
            old(self).nodes@[w as int].data@.len() == 2,
            old(self).nodes@[x as int].data@[1] == old(self).nodes@[w as int].data@[0],
            old(self).nodes@[x as int].data@[0] * old(self).nodes@[w as int].data@[1]
                <= tensor::SIZE_LIMIT,
            match b {
                Some(bi) => bi < old(self).nodes@.len() && old(self).nodes@[bi as int].data@
                    == seq![old(self).nodes@[w as int].data@[1]],
                None => true,
            },
            old(self).next_id < u32::MAX,
            old(self).records@.len() < 0x7fff_ffff,
        ensures
            final(self).wf(),
            y == old(self).nodes@.len(),
            final(self).nodes@.len() == old(self).nodes@.len() + 1,
            forall|j: int|
                0 <= j < old(self).nodes@.len() ==> final(self).nodes@[j] == old(self).nodes@[j],
            final(self).records@.len() == old(self).records@.len() + 1,
            forall|r: int|
                0 <= r < old(self).records@.len() ==> final(self).records@[r] == old(
                    self,
                ).records@[r],
            final(self).records@.last().op == (OpKind::Linear { biased: b is Some }),
            final(self).records@.last().inputs@ == match b {
                Some(bi) => seq![x, w, bi],
                None => seq![x, w],
            },
            final(self).records@.last().output == y,
            final(self).nodes@[y as int].data@ == seq![
                old(self).nodes@[x as int].data@[0],
                old(self).nodes@[w as int].data@[1],
            ],
            final(self).nodes@[y as int].creator == Some(old(self).records@.len() as usize),
            final(self).nodes@[y as int].grad is None,
            final(self).nodes@[y as int].generation == final(self).records@.last().generation + 1,
            final(self).next_id == old(self).next_id + 1,
    {
        let y_idx = self.nodes.len();
        let r_idx = self.records.len();
        let mut ydata = tensor::matmul(&self.nodes[x].data, &self.nodes[w].data);
        let mut inputs: Vec<usize> = Vec::new();
        inputs.push(x);
        inputs.push(w);
        let biased = match b {
            Some(bi) => {
                ydata = tensor::add_row(&ydata, &self.nodes[bi].data);
                inputs.push(bi);
                true
            },
            None => false,
        };
        proof {
            match b {
                Some(bi) => {
                    assert(inputs@ =~= seq![x, w, bi]);
                },
                None => {
                    assert(inputs@ =~= seq![x, w]);
                },
            }
        }
        let gen = self.max_gen_of(&inputs);
        let id = self.next_id;
        self.next_id = id + 1;
        self.nodes.push(
            Node { data: ydata, grad: None, creator: Some(r_idx), generation: gen + 1, id },
        );
        self.records.push(
            Record { op: OpKind::Linear { biased }, inputs, output: y_idx, generation: gen },
        );
        proof {
            lemma_wf_after_apply(
                *old(self),
                *self,
                self.records@.last(),
                self.nodes@.last(),
            );
        }
        y_idx
    }

    /// Executes the elementwise-addition primitive and records it.
    pub fn apply_add(&mut self, a: usize, b: usize) -> (y: usize)
        requires
            old(self).wf(),
            a < old(self).nodes@.len(),
            b < old(self).nodes@.len(),
            old(self).nodes@[a as int].data@ == old(self).nodes@[b as int].data@,
            old(self).next_id < u32::MAX,
            old(self).records@.len() < 0x7fff_ffff,
        ensures
            final(self).wf(),
            y == old(self).nodes@.len(),
            final(self).nodes@.len() == old(self).nodes@.len() + 1,
            forall|j: int|
                0 <= j < old(self).nodes@.len() ==> final(self).nodes@[j] == old(self).nodes@[j],
            final(self).records@.len() == old(self).records@.len() + 1,
            forall|r: int|
                0 <= r < old(self).records@.len() ==> final(self).records@[r] == old(
                    self,
                ).records@[r],
            final(self).records@.last().op == OpKind::AddSame,
            final(self).records@.last().inputs@ == seq![a, b],
            final(self).records@.last().output == y,
            final(self).nodes@[y as int].data@ == old(self).nodes@[a as int].data@,
            final(self).nodes@[y as int].creator == Some(old(self).records@.len() as usize),
            final(self).nodes@[y as int].grad is None,
            final(self).next_id == old(self).next_id + 1,
    {
        let y_idx = self.nodes.len();
        let r_idx = self.records.len();
        proof {
            assert(old(self).node_ok(a as int));
        }
        let ydata = tensor::add_same(&self.nodes[a].data, &self.nodes[b].data);
        let mut inputs: Vec<usize> = Vec::new();
        inputs.push(a);
        inputs.push(b);
        proof {
            assert(inputs@ =~= seq![a, b]);
        }
        let gen = self.max_gen_of(&inputs);
        let id = self.next_id;
        self.next_id = id + 1;
        self.nodes.push(
            Node { data: ydata, grad: None, creator: Some(r_idx), generation: gen + 1, id },
        );
        self.records.push(
            Record { op: OpKind::AddSame, inputs, output: y_idx, generation: gen },
        );
        proof {
            lemma_wf_after_apply(*old(self), *self, self.records@.last(), self.nodes@.last());
        }
        y_idx
    }

    /// Executes the sum-of-all-elements primitive (the usual way a scalar loss
    /// is formed) and records it.
    pub fn apply_sum_all(&mut self, x: usize) -> (y: usize)
        requires
            old(self).wf(),
            x < old(self).nodes@.len(),
            old(self).next_id < u32::MAX,
            old(self).records@.len() < 0x7fff_ffff,
        ensures
            final(self).wf(),
            y == old(self).nodes@.len(),
            final(self).nodes@.len() == old(self).nodes@.len() + 1,
            forall|j: int|
                0 <= j < old(self).nodes@.len() ==> final(self).nodes@[j] == old(self).nodes@[j],
            final(self).records@.len() == old(self).records@.len() + 1,
            forall|r: int|
                0 <= r < old(self).records@.len() ==> final(self).records@[r] == old(
                    self,
                ).records@[r],
            final(self).records@.last().op == OpKind::SumAll,
            final(self).records@.last().inputs@ == seq![x],
            final(self).records@.last().output == y,
            final(self).nodes@[y as int].data@ == Seq::<usize>::empty(),
            final(self).nodes@[y as int].creator == Some(old(self).records@.len() as usize),
            final(self).nodes@[y as int].grad is None,
            final(self).next_id == old(self).next_id + 1,
    {
        let y_idx = self.nodes.len();
        let r_idx = self.records.len();
        let ydata = tensor::sum_all(&self.nodes[x].data);
        let mut inputs: Vec<usize> = Vec::new();
        inputs.push(x);
        proof {
            assert(inputs@ =~= seq![x]);
        }
        let gen = self.max_gen_of(&inputs);
        let id = self.next_id;
        self.next_id = id + 1;
        self.nodes.push(
            Node { data: ydata, grad: None, creator: Some(r_idx), generation: gen + 1, id },
        );
        self.records.push(Record { op: OpKind::SumAll, inputs, output: y_idx, generation: gen });
        proof {
            lemma_wf_after_apply(*old(self), *self, self.records@.last(), self.nodes@.last());
        }
        y_idx
    }

    /// Schedules the creator of node `inp`, if it has one that is not yet
    /// scheduled: marks it seen and adds it to the worklist.
    fn schedule_creator(&self, inp: usize, worklist: &mut Vec<usize>, seen: &mut Vec<bool>)
        requires
            self.wf(),
            inp < self.nodes@.len(),
            old(seen)@.len() == self.records@.len(),
        ensures
            final(seen)@.len() == old(seen)@.len(),
            match self.nodes@[inp as int].creator {
                Some(c) => {
                    &&& c < self.records@.len()
                    &&& self.records@[c as int].output == inp
                    &&& if old(seen)@[c as int] {
                        final(seen)@ == old(seen)@ && final(worklist)@ == old(worklist)@
                    } else {
                        final(seen)@ == old(seen)@.update(c as int, true) && final(worklist)@
                            == old(worklist)@.push(c)
                    }
                },
                None => final(seen)@ == old(seen)@ && final(worklist)@ == old(worklist)@,
            },
    {
        proof {
            assert(self.node_ok(inp as int));
        }
        match self.nodes[inp].creator {
            Some(c) => {
                if !seen[c] {
                    let cell = &mut seen[c];
                    *cell = true;
                    worklist.push(c);
                }
            },
            None => {},
        }
    }

    /// Accumulates one gradient contribution into node `inp` and schedules its
    /// creator. One scheduler step per contribution: the id budget grows by
    /// exactly one.
    fn propagate(
        &mut self,
        inp: usize,
        contribution: Tensor<A>,
        worklist: &mut Vec<usize>,
        seen: &mut Vec<bool>,
    )
        requires
            old(self).wf(),
            inp < old(self).nodes@.len(),
            contribution@ == old(self).nodes@[inp as int].data@,
            old(self).next_id < u32::MAX,
            old(seen)@.len() == old(self).records@.len(),
        ensures
            final(self).wf(),
            final(self).records@ == old(self).records@,
            final(self).next_id == old(self).next_id + 1,
            final(self).nodes@.len() == old(self).nodes@.len() + 1,
            forall|j: int|
                0 <= j < old(self).nodes@.len() && j != inp ==> final(self).nodes@[j] == old(
                    self,
                ).nodes@[j],
            eq_but_grad(old(self).nodes@[inp as int], final(self).nodes@[inp as int]),
            final(self).nodes@[inp as int].grad is Some,
            final(self).nodes@.last().grad is None,
            final(self).nodes@.last().creator is None,
            final(seen)@.len() == old(seen)@.len(),
            sched_budget(*final(self), final(worklist)@, final(seen)@) == sched_budget(
                *old(self),
                old(worklist)@,
                old(seen)@,
            ) + 1,
            forall|j: int|
                0 <= j < old(self).nodes@.len() ==> ((#[trigger] old(self).nodes@[j].grad)
                    is Some ==> final(self).nodes@[j].grad is Some),
            forall|j: int|
                0 <= j < old(self).nodes@.len() ==> (old(self).nodes@[j].grad is Some
                    ==> (#[trigger] final(self).nodes@[j].grad) is Some),
            forall|rr: int|
                0 <= rr < old(seen)@.len() ==> ((#[trigger] old(seen)@[rr]) ==> final(seen)@[rr]),
            forall|rr: int|
                0 <= rr < old(seen)@.len() ==> (old(seen)@[rr] ==> #[trigger] final(seen)@[rr]),
            final(worklist)@.len() >= old(worklist)@.len(),
            final(worklist)@.len() <= old(worklist)@.len() + 1,
            forall|k: int|
                0 <= k < old(worklist)@.len() ==> #[trigger] final(worklist)@[k] == old(
                    worklist,
                )@[k],
            seen_of(final(seen)@).len() >= seen_of(old(seen)@).len(),
            final(worklist)@.len() > old(worklist)@.len() ==> seen_of(final(seen)@).len()
                == seen_of(old(seen)@).len() + 1,
            final(worklist)@.len() == old(worklist)@.len() ==> final(seen)@ == old(seen)@
                && final(worklist)@ == old(worklist)@,
            forall|v: usize|
                (#[trigger] old(worklist)@.contains(v)) ==> final(worklist)@.contains(v),
            final(worklist)@.len() > old(worklist)@.len() ==> final(worklist)@.contains(
                final(worklist)@.last(),
            ) && final(seen)@[final(worklist)@.last() as int],
            match old(self).nodes@[inp as int].creator {
                Some(c) => {
                    &&& c < old(self).records@.len()
                    &&& old(self).records@[c as int].output == inp
                    &&& if old(seen)@[c as int] {
                        final(seen)@ == old(seen)@ && final(worklist)@ == old(worklist)@
                    } else {
                        final(seen)@ == old(seen)@.update(c as int, true) && final(worklist)@
                            == old(worklist)@.push(c)
                    }
                },
                None => final(seen)@ == old(seen)@ && final(worklist)@ == old(worklist)@,
            },
    {
        self.accumulate_grad(inp, contribution);
        let ghost seen1 = seen@;
        let ghost wl1 = worklist@;
        self.schedule_creator(inp, worklist, seen);
        proof {
            assert forall|v: usize| wl1.contains(v) implies worklist@.contains(v) by {
                let idx = choose|idx: int| 0 <= idx < wl1.len() && wl1[idx] == v;
                assert(worklist@[idx] == v);
            }
            if worklist@.len() > wl1.len() {
                assert(worklist@[worklist@.len() - 1] == worklist@.last());
            }
            lemma_seen_card(seen1);
            match self.nodes@[inp as int].creator {
                Some(c) => {
                    if !seen1[c as int] {
                        lemma_seen_insert(seen1, seen@, c as int);
                    }
                },
                None => {},
            }
        }
    }

    /// Processes one operation record during backward traversal: reads its
    /// output's accumulated gradient, applies the operation's backward rule to
    /// obtain one contribution per input, accumulates each into the
    /// corresponding input node, and schedules each input's creator that is
    /// not yet scheduled.
    #[verifier::rlimit(100)]
    fn process_record(&mut self, r: usize, worklist: &mut Vec<usize>, seen: &mut Vec<bool>)
        requires
            old(self).wf(),
            r < old(self).records@.len(),
            old(seen)@.len() == old(self).records@.len(),
            old(seen)@[r as int],
            old(self).nodes@[old(self).records@[r as int].output as int].grad is Some,
            old(self).next_id as int + 3 <= u32::MAX,
        ensures
            final(self).wf(),
            final(self).records@ == old(self).records@,
            final(self).nodes@.len() >= old(self).nodes@.len(),
            forall|j: int|
                0 <= j < old(self).nodes@.len() ==> eq_but_grad(
                    old(self).nodes@[j],
                    #[trigger] final(self).nodes@[j],
                ),
            forall|j: int|
                0 <= j < old(self).nodes@.len() ==> ((#[trigger] old(self).nodes@[j].grad)
                    is Some ==> final(self).nodes@[j].grad is Some),
            final(seen)@.len() == old(seen)@.len(),
            forall|rr: int|
                0 <= rr < old(seen)@.len() ==> ((#[trigger] old(seen)@[rr]) ==> final(seen)@[rr]),
            final(worklist)@.len() >= old(worklist)@.len(),
            forall|k: int|
                0 <= k < old(worklist)@.len() ==> #[trigger] final(worklist)@[k]
                    == old(worklist)@[k],
            sched_budget(*final(self), final(worklist)@, final(seen)@) <= sched_budget(
                *old(self),
                old(worklist)@,
                old(seen)@,
            ) + 3,
            seen_of(final(seen)@).len() >= seen_of(old(seen)@).len(),
            final(worklist)@.len() > old(worklist)@.len() ==> seen_of(final(seen)@).len()
                > seen_of(old(seen)@).len(),
            final(worklist)@.len() == old(worklist)@.len() ==> final(worklist)@ == old(worklist)@
                && final(seen)@ == old(seen)@,
            forall|kk: int|
                old(worklist)@.len() <= kk < final(worklist)@.len() ==> wl_good(
                    *final(self),
                    r,
                    #[trigger] final(worklist)@[kk],
                    final(seen)@,
                ),
            forall|kk: int|
                old(worklist)@.len() <= kk < final(worklist)@.len()
                    ==> !old(seen)@[(#[trigger] final(worklist)@[kk]) as int],
            forall|rr: int|
                0 <= rr < old(seen)@.len() && !old(seen)@[rr] ==> ((#[trigger] final(seen)@[rr])
                    ==> final(worklist)@.contains(rr as usize)),
            forall|kk1: int, kk2: int|
                old(worklist)@.len() <= kk1 < kk2 < final(worklist)@.len() ==> final(worklist)@[kk1]
                    != final(worklist)@[kk2],
            forall|t: int|
                0 <= t < old(self).records@[r as int].inputs@.len() ==> {
                    let inp = #[trigger] old(self).records@[r as int].inputs@[t];
                    &&& final(self).nodes@[inp as int].grad is Some
                    &&& match final(self).nodes@[inp as int].creator {
                        Some(c) => final(seen)@[c as int],
                        None => true,
                    }
                },
    {
        let ghost s0 = *old(self);
        let ghost wl_rm = old(worklist)@;
        proof {
            assert(self.record_ok(r as int));
            assert forall|t: int|
                0 <= t < s0.records@[r as int].inputs@.len() implies match s0.nodes@[
                #[trigger] s0.records@[r as int].inputs@[t] as int].creator {
                Some(c) => c < s0.records@.len() && s0.records@[c as int].generation < s0.records@[
                    r as int
                ].generation,
                None => true,
            } by {
                lemma_creator_gen(s0, r as int, t);
            }
        }
        let out = self.records[r].output;
        proof {
            assert(self.node_ok(out as int));
        }
        let gyi = self.nodes[out].grad.unwrap();
        let op = self.records[r].op;
        match op {
            OpKind::Linear { biased } => {
                let x = self.records[r].inputs[0];
                let w = self.records[r].inputs[1];
                proof {
                    assert(self.record_shapes_ok(r as int));
                    assert(self.node_ok(x as int));
                    assert(self.node_ok(w as int));
                    lemma_product2(self.nodes@[x as int].data@);
                    lemma_product2(self.nodes@[w as int].data@);
                    assert(self.nodes@[x as int].data@ =~= seq![
                        self.nodes@[x as int].data@[0],
                        self.nodes@[x as int].data@[1],
                    ]);
                    assert(self.nodes@[w as int].data@ =~= seq![
                        self.nodes@[w as int].data@[0],
                        self.nodes@[w as int].data@[1],
                    ]);
                }
                let wt = tensor::transpose(&self.nodes[w].data);
                let gx = tensor::matmul(&self.nodes[gyi].data, &wt);
                self.propagate(x, gx, &mut *worklist, &mut *seen);
                let xt = tensor::transpose(&self.nodes[x].data);
                let gw = tensor::matmul(&xt, &self.nodes[gyi].data);
                self.propagate(w, gw, &mut *worklist, &mut *seen);
                if biased {
                    let bi = self.records[r].inputs[2];
                    let gb = tensor::sum_axis0(&self.nodes[gyi].data);
                    self.propagate(bi, gb, &mut *worklist, &mut *seen);
                }
            },
            OpKind::AddSame => {
                let a = self.records[r].inputs[0];
                let b2 = self.records[r].inputs[1];
                proof {
                    assert(self.record_shapes_ok(r as int));
                }
                let ga = tensor::clone_of(&self.nodes[gyi].data);
                self.propagate(a, ga, &mut *worklist, &mut *seen);
                let gb = tensor::clone_of(&self.nodes[gyi].data);
                self.propagate(b2, gb, &mut *worklist, &mut *seen);
            },
            OpKind::SumAll => {
                let x0 = self.records[r].inputs[0];
                proof {
                    assert(self.record_shapes_ok(r as int));
                }
                let gx = tensor::broadcast_like(&self.nodes[gyi].data, &self.nodes[x0].data);
                self.propagate(x0, gx, &mut *worklist, &mut *seen);
            },
        }
        proof {
            lemma_seen_card(old(seen)@);
            lemma_seen_card(seen@);
            assert forall|t: int|
                0 <= t < s0.records@[r as int].inputs@.len() implies {
                    let inp = #[trigger] s0.records@[r as int].inputs@[t];
                    &&& self.nodes@[inp as int].grad is Some
                    &&& match self.nodes@[inp as int].creator {
                        Some(c) => seen@[c as int],
                        None => true,
                    }
                } by {
                assert(s0.record_ok(r as int));
                assert(s0.record_shapes_ok(r as int));
            }
            assert forall|kk: int| wl_rm.len() <= kk < worklist@.len() implies wl_good(
                *self,
                r,
                #[trigger] worklist@[kk],
                seen@,
            ) && !old(seen)@[worklist@[kk] as int] by {
                assert(s0.record_ok(r as int));
            }
            assert forall|rr: int|
                0 <= rr < old(seen)@.len() && !old(seen)@[rr] && seen@[rr] implies worklist@.contains(
                rr as usize) by {}
            assert forall|kk1: int, kk2: int|
                wl_rm.len() <= kk1 < kk2 < worklist@.len() implies worklist@[kk1]
                    != worklist@[kk2] by {}
        }
    }

    /// Backward traversal from `terminal`: seeds its gradient with the
    /// multiplicative identity, then walks the operation records in strictly
    /// decreasing generation order, accumulating one gradient contribution
    /// into each input of each visited record, visiting each reachable record
    /// exactly once. Returns the order in which records were processed, about
    /// which the contract states the backward-order law.
    #[verifier::rlimit(100)]
    pub fn backward(&mut self, terminal: usize) -> (p: Ghost<Seq<usize>>)
        requires
            old(self).wf(),
            terminal < old(self).nodes@.len(),
            old(self).next_id as int + 4 + 3 * old(self).records@.len() <= u32::MAX,
        ensures
            final(self).wf(),
            final(self).records@ == old(self).records@,
            final(self).nodes@.len() > old(self).nodes@.len(),
            forall|j: int|
                0 <= j < old(self).nodes@.len() ==> eq_but_grad(
                    old(self).nodes@[j],
                    #[trigger] final(self).nodes@[j],
                ),
            final(self).nodes@[terminal as int].grad is Some,
            final(self).next_id as int <= old(self).next_id + 4 + 3 * old(self).records@.len(),
            forall|a: int| 0 <= a < p@.len() ==> #[trigger] p@[a] < final(self).records@.len(),
            forall|a: int, b: int| 0 <= a < b < p@.len() ==> p@[a] != p@[b],
            forall|a: int, b: int|
                0 <= a < b < p@.len() ==> final(self).records@[p@[a] as int].generation
                    >= final(self).records@[p@[b] as int].generation,
            match old(self).nodes@[terminal as int].creator {
                Some(c) => p@.contains(c),
                None => p@.len() == 0,
            },
            forall|a: int, t: int|
                0 <= a < p@.len() && 0 <= t < final(self).records@[p@[a] as int].inputs@.len()
                    ==> {
                    let inp = #[trigger] final(self).records@[p@[a] as int].inputs@[t];
                    &&& final(self).nodes@[inp as int].grad is Some
                    &&& match final(self).nodes@[inp as int].creator {
                        Some(c) => p@.contains(c),
                        None => true,
                    }
                },
    {
        let ghost bud: int = old(self).next_id as int + 4 + 3 * old(self).records@.len();
        proof {
            assert(old(self).node_ok(terminal as int));
        }
        let ones = tensor::ones_like(&self.nodes[terminal].data);
        self.accumulate_grad(terminal, ones);
        let n_rec = self.records.len();
        let mut seen: Vec<bool> = Vec::new();
        while seen.len() < n_rec
            invariant
                seen@.len() <= n_rec,
                forall|t: int| 0 <= t < seen@.len() ==> !(#[trigger] seen@[t]),
            decreases n_rec - seen@.len(),
        {
            seen.push(false);
        }
        let mut worklist: Vec<usize> = Vec::new();
        let ghost mut processed: Seq<usize> = Seq::empty();
        proof {
            broadcast use vstd::set::axiom_set_empty_len;

            assert(seen_of(seen@) =~= Set::<int>::empty());
            assert(seen_of(seen@).len() == 0);
        }
        let ghost seen_init = seen@;
        self.schedule_creator(terminal, &mut worklist, &mut seen);
        proof {
            match self.nodes@[terminal as int].creator {
                Some(c) => {
                    lemma_seen_insert(seen_init, seen@, c as int);
                    assert(worklist@ == Seq::<usize>::empty().push(c));
                    assert(worklist@[0] == c);
                },
                None => {},
            }
            assert forall|rr: int| 0 <= rr < self.records@.len() implies (seen@[rr] <==> (
            processed.contains(rr as usize) || worklist@.contains(rr as usize))) by {
                assert(processed.len() == 0);
                assert(!processed.contains(rr as usize));
                match self.nodes@[terminal as int].creator {
                    Some(c) => {
                        if rr == c {
                            assert(worklist@.contains(rr as usize));
                        } else {
                            if worklist@.contains(rr as usize) {
                                let u = choose|u: int|
                                    0 <= u < worklist@.len() && worklist@[u] == rr as usize;
                                assert(u == 0);
                            }
                        }
                    },
                    None => {
                        assert(worklist@.len() == 0);
                        assert(!worklist@.contains(rr as usize));
                    },
                }
            }
        }
        while worklist.len() > 0
            invariant
                old(self).wf(),
                self.wf(),
                self.records@ == old(self).records@,
                terminal < old(self).nodes@.len(),
                self.nodes@.len() > old(self).nodes@.len(),
                forall|j: int|
                    0 <= j < old(self).nodes@.len() ==> eq_but_grad(
                        old(self).nodes@[j],
                        #[trigger] self.nodes@[j],
                    ),
                self.nodes@[terminal as int].grad is Some,
                seen@.len() == self.records@.len(),
                seen@.len() <= usize::MAX,
                bud <= u32::MAX,
                sched_budget(*self, worklist@, seen@) <= bud,
                forall|k: int| 0 <= k < worklist@.len() ==> #[trigger] worklist@[k] < self.records@.len(),
                forall|k: int| 0 <= k < worklist@.len() ==> seen@[#[trigger] worklist@[k] as int],
                forall|k: int|
                    0 <= k < worklist@.len() ==> self.nodes@[self.records@[#[trigger] worklist@[k] as int].output as int].grad is Some,
                forall|k1: int, k2: int| 0 <= k1 < k2 < worklist@.len() ==> worklist@[k1] != worklist@[k2],
                forall|r: int|
                    0 <= r < self.records@.len() ==> (seen@[r] <==> (processed.contains(r as usize)
                        || worklist@.contains(r as usize))),
                forall|a: int| 0 <= a < processed.len() ==> #[trigger] processed[a] < self.records@.len(),
                forall|a: int, b: int| 0 <= a < b < processed.len() ==> processed[a] != processed[b],
                forall|a: int| 0 <= a < processed.len() ==> !worklist@.contains(#[trigger] processed[a]),
                forall|a: int, b: int|
                    0 <= a < b < processed.len() ==> self.records@[processed[a] as int].generation
                        >= self.records@[processed[b] as int].generation,
                forall|k: int, a: int|
                    0 <= k < worklist@.len() && 0 <= a < processed.len()
                        ==> self.records@[#[trigger] worklist@[k] as int].generation
                        <= self.records@[#[trigger] processed[a] as int].generation,
                forall|a: int, t: int|
                    0 <= a < processed.len() && 0 <= t < self.records@[processed[a] as int].inputs@.len()
                        ==> {
                        let inp = #[trigger] self.records@[processed[a] as int].inputs@[t];
                        &&& self.nodes@[inp as int].grad is Some
                        &&& match self.nodes@[inp as int].creator {
                            Some(c) => seen@[c as int],
                            None => true,
                        }
                    },
                match old(self).nodes@[terminal as int].creator {
                    Some(c) => seen@[c as int],
                    None => processed.len() == 0 && worklist@.len() == 0,
                },
            decreases self.records@.len() - seen_of(seen@).len(), worklist@.len(),
        {
            let mut best: usize = 0;
            let mut k: usize = 1;
            while k < worklist.len()
                invariant
                    1 <= worklist@.len(),
                    best < worklist@.len(),
                    k <= worklist@.len(),
                    self.wf(),
                    seen@.len() == self.records@.len(),
                    forall|t: int|
                        0 <= t < worklist@.len() ==> #[trigger] worklist@[t] < self.records@.len(),
                    forall|t: int|
                        0 <= t < k ==> self.records@[#[trigger] worklist@[t] as int].generation
                            <= self.records@[worklist@[best as int] as int].generation,
                decreases worklist@.len() - k,
            {
                if self.records[worklist[k]].generation > self.records[worklist[best]].generation {
                    best = k;
                }
                k = k + 1;
            }
            let ghost s0 = *self;
            let ghost wl0 = worklist@;
            let ghost seen0 = seen@;
            let ghost pr0 = processed;
            let r = worklist.remove(best);
            let ghost wl_rm = worklist@;
            proof {
                assert forall|t: int| 0 <= t < wl_rm.len() implies #[trigger] wl_rm[t] == (if t
                    < best { wl0[t] } else { wl0[t + 1] }) by {}
                assert(self.record_ok(r as int));
                lemma_seen_card(seen@);
                processed = processed.push(r);
            }
            self.process_record(r, &mut worklist, &mut seen);
            proof {
                lemma_seen_card(seen@);
                assert(self.records@ == s0.records@);
                assert forall|rr: int| 0 <= rr < seen@.len() implies ((#[trigger] seen0[rr])
                    ==> seen@[rr]) by {}
                // where each current worklist entry comes from
                assert forall|kk: int| 0 <= kk < worklist@.len() implies {
                    let v = #[trigger] worklist@[kk];
                    &&& v < self.records@.len()
                    &&& seen@[v as int]
                    &&& self.nodes@[self.records@[v as int].output as int].grad is Some
                    &&& self.records@[v as int].generation <= s0.records@[r as int].generation
                    &&& (kk < wl_rm.len() ==> v == wl_rm[kk])
                    &&& (kk >= wl_rm.len() ==> self.records@[v as int].generation < s0.records@[
                        r as int
                    ].generation && !seen0[v as int])
                } by {
                    if kk < wl_rm.len() {
                        assert(worklist@[kk] == wl_rm[kk]);
                        let u: int = if kk < best { kk } else { kk + 1 };
                        assert(wl_rm[kk] == wl0[u]);
                        assert(s0.record_ok(wl0[u] as int));
                        assert(s0.nodes@[s0.records@[wl0[u] as int].output as int].grad is Some);
                        assert(self.nodes@[s0.records@[wl0[u] as int].output as int].grad
                            is Some);
                    } else {
                        assert(wl_good(*self, r, worklist@[kk], seen@));
                    }
                }
                // processed stays ordered by generation
                assert forall|a: int, b: int| 0 <= a < b < processed.len() implies self.records@[
                    processed[a] as int].generation >= self.records@[processed[b] as int].generation by {
                    if b == processed.len() - 1 {
                        assert(processed[b] == r);
                        assert(processed[a] == pr0[a]);
                        assert(wl0[best as int] == r);
                    }
                }
                // the worklist stays at or below every processed generation
                assert forall|kk: int, a: int|
                    0 <= kk < worklist@.len() && 0 <= a < processed.len() implies self.records@[
                    #[trigger] worklist@[kk] as int].generation <= self.records@[#[trigger] processed[a] as int].generation by {
                    if a < pr0.len() {
                        assert(processed[a] == pr0[a]);
                        assert(s0.records@[wl0[best as int] as int].generation <= s0.records@[
                            pr0[a] as int
                        ].generation);
                    } else {
                        assert(processed[a] == r);
                    }
                    if kk < wl_rm.len() {
                        let u: int = if kk < best { kk } else { kk + 1 };
                        assert(worklist@[kk] == wl0[u]);
                    }
                }
                // no worklist duplicates
                assert forall|k1: int, k2: int| 0 <= k1 < k2 < worklist@.len() implies worklist@[k1]
                    != worklist@[k2] by {
                    if k2 < wl_rm.len() {
                        let u1: int = if k1 < best { k1 } else { k1 + 1 };
                        let u2: int = if k2 < best { k2 } else { k2 + 1 };
                        assert(worklist@[k1] == wl0[u1]);
                        assert(worklist@[k2] == wl0[u2]);
                    } else if k1 < wl_rm.len() {
                        assert(seen0[worklist@[k1] as int]);
                        assert(!seen0[worklist@[k2] as int]);
                    }
                }
                // the seen vector matches processed plus worklist
                lemma_seen_partition(seen0, seen@, wl0, worklist@, pr0, processed, r, best as int);
                // terminal bookkeeping
                match old(self).nodes@[terminal as int].creator {
                    Some(c) => {
                        assert(old(self).node_ok(terminal as int));
                        assert(c < seen0.len());
                        assert(seen0[c as int]);
                        assert(seen@[c as int]);
                    },
                    None => {
                        assert(wl0.len() == 0);
                        assert(false);
                    },
                }
                // closure for every processed record
                assert forall|a: int, t: int|
                    0 <= a < processed.len() && 0 <= t < self.records@[processed[a] as int].inputs@.len()
                        implies {
                        let inp = #[trigger] self.records@[processed[a] as int].inputs@[t];
                        &&& self.nodes@[inp as int].grad is Some
                        &&& match self.nodes@[inp as int].creator {
                            Some(c) => seen@[c as int],
                            None => true,
                        }
                    } by {
                    if a < pr0.len() {
                        assert(processed[a] == pr0[a]);
                        assert(s0.record_ok(pr0[a] as int));
                        let inp = s0.records@[pr0[a] as int].inputs@[t];
                        assert(s0.nodes@[inp as int].grad is Some);
                        assert(node_frame(s0.nodes@[inp as int], self.nodes@[inp as int]));
                        assert(match s0.nodes@[inp as int].creator {
                            Some(cc) => seen0[cc as int],
                            None => true,
                        });
                        match s0.nodes@[inp as int].creator {
                            Some(c) => {
                                assert(s0.node_ok(inp as int));
                                assert(c < seen0.len());
                                assert(seen0[c as int]);
                                assert(seen@[c as int]);
                            },
                            None => {},
                        }
                    } else {
                        assert(processed[a] == r);
                        assert(s0.record_ok(r as int));
                        let inp = s0.records@[r as int].inputs@[t];
                        assert(self.nodes@[inp as int].grad is Some);
                        match self.nodes@[inp as int].creator {
                            Some(c) => {
                                assert(seen@[c as int]);
                            },
                            None => {},
                        }
                    }
                }
            }
        }
        proof {
            lemma_seen_card(seen@);
            assert(self.next_id as int <= bud);
            assert forall|a: int, t: int|
                0 <= a < processed.len() && 0 <= t < self.records@[processed[a] as int].inputs@.len()
                    implies {
                    let inp = #[trigger] self.records@[processed[a] as int].inputs@[t];
                    &&& self.nodes@[inp as int].grad is Some
                    &&& match self.nodes@[inp as int].creator {
                        Some(c) => processed.contains(c),
                        None => true,
                    }
                } by {
                let inp = self.records@[processed[a] as int].inputs@[t];
                match self.nodes@[inp as int].creator {
                    Some(c) => {
                        assert(self.record_ok(processed[a] as int));
                        assert(self.node_ok(inp as int));
                        assert(seen@[c as int]);
                        assert(!worklist@.contains(c));
                    },
                    None => {},
                }
            }
            match old(self).nodes@[terminal as int].creator {
                Some(c) => {
                    assert(node_frame(old(self).nodes@[terminal as int], self.nodes@[terminal as int]));
                    assert(seen@[c as int]);
                    assert(!worklist@.contains(c));
                },
                None => {},
            }
        }
        Ghost(processed)
    }
}

/// The maximum input generation depends only on the nodes the inputs index:
/// it is unchanged when the node sequence is extended or when nodes keep
/// their generations.
pub proof fn lemma_max_gen_same<A>(nodes1: Seq<Node<A>>, nodes2: Seq<Node<A>>, inputs: Seq<usize>)
    requires
        forall|k: int|
            0 <= k < inputs.len() ==> #[trigger] inputs[k] < nodes1.len() && inputs[k] < nodes2.len()
                && nodes2[inputs[k] as int].generation == nodes1[inputs[k] as int].generation,
    ensures
        max_input_gen(nodes2, inputs) == max_input_gen(nodes1, inputs),
    decreases inputs.len(),
{
    if inputs.len() > 0 {
        assert(forall|k: int|
            0 <= k < inputs.drop_last().len() ==> #[trigger] inputs.drop_last()[k] == inputs[k]);
        lemma_max_gen_same(nodes1, nodes2, inputs.drop_last());
    }
}

/// The set of record indices marked true in a seen vector.
pub open spec fn seen_of(seen: Seq<bool>) -> Set<int> {
    Set::new(|r: int| 0 <= r < seen.len() && seen[r])
}

/// What holds of a record freshly scheduled while record `r` is processed:
/// it is live, marked seen, its output already carries a gradient, and it
/// sits at a strictly smaller generation than `r`.
pub open spec fn wl_good<A>(g: Graph<A>, r: usize, v: usize, seen: Seq<bool>) -> bool {
    &&& v < g.records@.len()
    &&& seen[v as int]
    &&& g.nodes@[g.records@[v as int].output as int].grad is Some
    &&& g.records@[v as int].generation < g.records@[r as int].generation
}

/// The number of scheduled records and the budget the scheduler draws fresh
/// node ids from: scheduling work is bounded by three gradient contributions
/// per record.
pub open spec fn sched_budget<A>(g: Graph<A>, wl: Seq<usize>, seen: Seq<bool>) -> int {
    g.next_id as int + 3 * wl.len() + 3 * (g.records@.len() - seen_of(seen).len())
}

/// A seen set is finite and no larger than its vector.
pub proof fn lemma_seen_card(seen: Seq<bool>)
    ensures
        seen_of(seen).finite(),
        seen_of(seen).len() <= seen.len(),
{
    vstd::set_lib::lemma_int_range(0, seen.len() as int);
    assert(seen_of(seen).subset_of(vstd::set_lib::set_int_range(0, seen.len() as int)));
    vstd::set_lib::lemma_len_subset(
        seen_of(seen),
        vstd::set_lib::set_int_range(0, seen.len() as int),
    );
}

/// Marking one unmarked record seen grows the seen set by exactly one.
pub proof fn lemma_seen_insert(s1: Seq<bool>, s2: Seq<bool>, c: int)
    requires
        0 <= c < s1.len(),
        s2 == s1.update(c, true),
        !s1[c],
    ensures
        seen_of(s2) == seen_of(s1).insert(c),
        seen_of(s2).len() == seen_of(s1).len() + 1,
{
    lemma_seen_card(s1);
    assert(seen_of(s2) =~= seen_of(s1).insert(c));
    vstd::set::axiom_set_insert_len(seen_of(s1), c);
}

/// The element count of a two-axis shape is the product of its extents.
pub proof fn lemma_product2(s: Seq<usize>)
    requires
        s.len() == 2,
    ensures
        tensor::shape_product(s) == s[0] * s[1],
{
    assert(s.drop_first() =~= seq![s[1]]);
    assert(seq![s[1]].drop_first() =~= Seq::<usize>::empty());
    assert(tensor::shape_product(Seq::<usize>::empty()) == 1);
    assert(tensor::shape_product(seq![s[1]]) == s[1] * tensor::shape_product(
        seq![s[1]].drop_first(),
    ));
    assert(tensor::shape_product(s) == s[0] * tensor::shape_product(s.drop_first()));
}

/// The generation law: every operation record's generation is the maximum of
/// its inputs' generations, and the node a record produces sits exactly one
/// generation deeper. Generations therefore strictly increase along every
/// forward dependency edge, which is what lets backward traversal linearize
/// an otherwise unordered graph by generation alone.
pub proof fn lemma_generation_invariant<A>(g: Graph<A>, r: int)
    requires
        g.wf(),
        0 <= r < g.records@.len(),
    ensures
        g.records@[r].generation == max_input_gen(g.nodes@, g.records@[r].inputs@),
        g.nodes@[g.records@[r].output as int].generation == g.records@[r].generation + 1,
        forall|k: int|
            0 <= k < g.records@[r].inputs@.len() ==> g.nodes@[(#[trigger] g.records@[r].inputs@[k]) as int].generation
                < g.nodes@[g.records@[r].output as int].generation,
    {
    assert(g.record_ok(r));
    assert forall|k: int|
        0 <= k < g.records@[r].inputs@.len() implies g.nodes@[(#[trigger] g.records@[r].inputs@[k]) as int].generation
            < g.nodes@[g.records@[r].output as int].generation by {
        lemma_max_gen_member(g.nodes@, g.records@[r].inputs@, k);
    }
}

/// One scheduler step keeps the seen marks equal to the processed records
/// plus the worklist: pure bookkeeping over the step's sequences.
#[verifier::rlimit(60)]
pub proof fn lemma_seen_partition(
    seen0: Seq<bool>,
    seen2: Seq<bool>,
    wl0: Seq<usize>,
    wl2: Seq<usize>,
    pr0: Seq<usize>,
    pr2: Seq<usize>,
    r: usize,
    best: int,
)
    requires
        seen2.len() == seen0.len(),
        seen0.len() <= usize::MAX,
        0 <= best < wl0.len(),
        wl0[best] == r,
        r < seen0.len(),
        forall|rr: int|
            0 <= rr < seen0.len() ==> ((#[trigger] seen0[rr]) <==> (pr0.contains(rr as usize)
                || wl0.contains(rr as usize))),
        forall|rr: int| 0 <= rr < seen0.len() ==> ((#[trigger] seen0[rr]) ==> seen2[rr]),
        forall|rr: int|
            0 <= rr < seen0.len() && !seen0[rr] ==> ((#[trigger] seen2[rr]) ==> wl2.contains(
                rr as usize,
            )),
        wl2.len() >= wl0.len() - 1,
        forall|t: int|
            0 <= t < wl0.len() - 1 ==> #[trigger] wl2[t] == (if t < best {
                wl0[t]
            } else {
                wl0[t + 1]
            }),
        forall|kk: int| wl0.len() - 1 <= kk < wl2.len() ==> seen2[#[trigger] wl2[kk] as int],
        forall|kk: int| wl0.len() - 1 <= kk < wl2.len() ==> wl2[kk] < seen0.len(),
        forall|k1: int, k2: int| 0 <= k1 < k2 < wl0.len() ==> wl0[k1] != wl0[k2],
        forall|a: int| 0 <= a < pr0.len() ==> !wl0.contains(#[trigger] pr0[a]),
        pr2 == pr0.push(r),
        forall|rr: int| 0 <= rr < wl0.len() ==> #[trigger] wl0[rr] < seen0.len(),
        forall|rr: int| 0 <= rr < wl0.len() ==> seen0[#[trigger] wl0[rr] as int],
    ensures
        forall|rr: int|
            0 <= rr < seen2.len() ==> ((#[trigger] seen2[rr]) <==> (pr2.contains(rr as usize)
                || wl2.contains(rr as usize))),
{
    assert forall|rr: int| 0 <= rr < seen2.len() implies ((#[trigger] seen2[rr]) <==> (
    pr2.contains(rr as usize) || wl2.contains(rr as usize))) by {
        let v = rr as usize;
        if seen2[rr] {
            if seen0[rr] {
                if pr0.contains(v) {
                    let a = choose|a: int| 0 <= a < pr0.len() && pr0[a] == v;
                    assert(pr2[a] == v);
                    assert(pr2.contains(v));
                } else {
                    assert(wl0.contains(v));
                    if v == r {
                        assert(pr2[pr2.len() - 1] == r);
                        assert(pr2.contains(v));
                    } else {
                        let u = choose|u: int| 0 <= u < wl0.len() && wl0[u] == v;
                        assert(u != best);
                        let t: int = if u < best {
                            u
                        } else {
                            u - 1
                        };
                        assert(wl2[t] == wl0[u]);
                        assert(wl2.contains(v));
                    }
                }
            }
        } else {
            if pr2.contains(v) {
                let a = choose|a: int| 0 <= a < pr2.len() && pr2[a] == v;
                if a < pr0.len() {
                    assert(pr0[a] == v);
                    assert(pr0.contains(v));
                    assert(seen0[rr]);
                } else {
                    assert(v == r);
                    assert(seen0[wl0[best] as int]);
                }
                assert(false);
            }
            if wl2.contains(v) {
                let kk = choose|kk: int| 0 <= kk < wl2.len() && wl2[kk] == v;
                if kk < wl0.len() - 1 {
                    let u: int = if kk < best {
                        kk
                    } else {
                        kk + 1
                    };
                    assert(wl2[kk] == wl0[u]);
                    assert(wl0.contains(v));
                    assert(seen0[rr]);
                } else {
                    assert(seen2[wl2[kk] as int]);
                }
                assert(false);
            }
        }
    }
}

/// The maximum input generation lies between 0 and the number of records of a
/// well-formed graph.
pub proof fn lemma_max_gen_bound<A>(g: Graph<A>, inputs: Seq<usize>)
    requires
        g.wf(),
        forall|k: int| 0 <= k < inputs.len() ==> #[trigger] inputs[k] < g.nodes@.len(),
    ensures
        0 <= max_input_gen(g.nodes@, inputs) <= g.records@.len(),
    decreases inputs.len(),
{
    if inputs.len() > 0 {
        lemma_max_gen_bound(g, inputs.drop_last());
        assert(g.node_ok(inputs.last() as int));
    }
}

/// Each input's generation is no larger than the maximum input generation.
pub proof fn lemma_max_gen_member<A>(nodes: Seq<Node<A>>, inputs: Seq<usize>, t: int)
    requires
        0 <= t < inputs.len(),
    ensures
        nodes[inputs[t] as int].generation as int <= max_input_gen(nodes, inputs),
    decreases inputs.len(),
{
    if t < inputs.len() - 1 {
        assert(inputs.drop_last()[t] == inputs[t]);
        lemma_max_gen_member(nodes, inputs.drop_last(), t);
    }
}

/// In a well-formed graph, the creator of any input of a record sits at a
/// strictly smaller generation than the record itself: what makes decreasing
/// generation order a sound schedule.
pub proof fn lemma_creator_gen<A>(g: Graph<A>, r: int, t: int)
    requires
        g.wf(),
        0 <= r < g.records@.len(),
        0 <= t < g.records@[r].inputs@.len(),
    ensures
        match g.nodes@[g.records@[r].inputs@[t] as int].creator {
            Some(c) => c < g.records@.len() && g.records@[c as int].generation < g.records@[
                r
            ].generation,
            None => true,
        },
{
    assert(g.record_ok(r));
    let inp = g.records@[r].inputs@[t] as int;
    assert(g.node_ok(inp));
    match g.nodes@[inp].creator {
        Some(c) => {
            assert(g.record_ok(c as int));
            lemma_max_gen_member(g.nodes@, g.records@[r].inputs@, t);
        },
        None => {},
    }
}

/// Well-formedness is preserved by recording one executed primitive: pushing
/// its fresh output node and its record, provided the record satisfies the
/// generation law and the shape discipline.
proof fn lemma_wf_after_apply<A>(g1: Graph<A>, g2: Graph<A>, rec: Record, out: Node<A>)
    requires
        g1.wf(),
        g1.records@.len() < usize::MAX,
        g2.nodes@ == g1.nodes@.push(out),
        g2.records@ == g1.records@.push(rec),
        g2.next_id > g1.next_id,
        g1.next_id <= out.id < g2.next_id,
        out.grad is None,
        out.creator == Some(g1.records@.len() as usize),
        out.data.wf(),
        rec.output == g1.nodes@.len(),
        1 <= rec.inputs@.len() <= 3,
        forall|k: int| 0 <= k < rec.inputs@.len() ==> #[trigger] rec.inputs@[k] < g1.nodes@.len(),
        rec.generation == max_input_gen(g1.nodes@, rec.inputs@),
        out.generation == rec.generation + 1,
        g2.record_shapes_ok(g1.records@.len() as int),
    ensures
        g2.wf(),
{
    lemma_max_gen_bound(g1, rec.inputs@);
    assert forall|i: int| 0 <= i < g2.nodes@.len() implies #[trigger] g2.node_ok(i) by {
        if i < g1.nodes@.len() {
            assert(g1.node_ok(i));
            assert(g2.nodes@[i] == g1.nodes@[i]);
            match g2.nodes@[i].grad {
                Some(gi) => {
                    assert(g2.nodes@[gi as int] == g1.nodes@[gi as int]);
                },
                None => {},
            }
            match g2.nodes@[i].creator {
                Some(r) => {
                    assert(g2.records@[r as int] == g1.records@[r as int]);
                },
                None => {},
            }
        } else {
            assert(g2.nodes@[i] == out);
            assert(g2.records@[g1.records@.len() as int] == rec);
            assert(g2.records@[g1.records@.len() as int].output == i);
        }
    }
    assert forall|r: int| 0 <= r < g2.records@.len() implies #[trigger] g2.record_ok(r) by {
        if r < g1.records@.len() {
            assert(g1.record_ok(r));
            assert(g2.records@[r] == g1.records@[r]);
            lemma_max_gen_same(g1.nodes@, g2.nodes@, g1.records@[r].inputs@);
            assert(g2.nodes@[g2.records@[r].output as int] == g1.nodes@[g1.records@[r].output as int]);
            assert(g1.record_shapes_ok(r));
            assert(g2.record_shapes_ok(r));
        } else {
            lemma_max_gen_same(g1.nodes@, g2.nodes@, rec.inputs@);
        }
    }
    assert forall|j: int, k: int| 0 <= j < k < g2.nodes@.len() implies #[trigger] g2.nodes@[j].id
        < #[trigger] g2.nodes@[k].id by {
        if k < g1.nodes@.len() {
        } else if j < g1.nodes@.len() {
            assert(g1.node_ok(j));
        }
    }
}

/// Well-formedness is preserved by any step that keeps the records, keeps the
/// frame of every old node, keeps gradients pointing at live same-shaped
/// nodes, and appends only leaf nodes with fresh, increasing ids.
pub proof fn lemma_wf_extended<A>(g1: Graph<A>, g2: Graph<A>)
    requires
        g1.wf(),
        g2.records@ == g1.records@,
        g2.nodes@.len() >= g1.nodes@.len(),
        g2.next_id >= g1.next_id,
        forall|j: int|
            0 <= j < g1.nodes@.len() ==> node_frame(g1.nodes@[j], #[trigger] g2.nodes@[j])
                && g2.nodes@[j].data.wf(),
        forall|j: int|
            g1.nodes@.len() <= j < g2.nodes@.len() ==> {
                let n = #[trigger] g2.nodes@[j];
                &&& n.creator is None
                &&& n.generation == 0
                &&& n.data.wf()
                &&& g1.next_id <= n.id < g2.next_id
            },
        forall|j: int, k: int|
            g1.nodes@.len() <= j < k < g2.nodes@.len() ==> #[trigger] g2.nodes@[j].id
                < #[trigger] g2.nodes@[k].id,
        forall|j: int|
            0 <= j < g2.nodes@.len() ==> match #[trigger] g2.nodes@[j].grad {
                Some(gi) => gi < g2.nodes@.len() && g2.nodes@[gi as int].data@ == g2.nodes@[j].data@,
                None => true,
            },
    ensures
        g2.wf(),
{
    assert forall|i: int| 0 <= i < g2.nodes@.len() implies #[trigger] g2.node_ok(i) by {
        if i < g1.nodes@.len() {
            assert(g1.node_ok(i));
        }
    }
    assert forall|r: int| 0 <= r < g2.records@.len() implies #[trigger] g2.record_ok(r) by {
        assert(g1.record_ok(r));
        lemma_max_gen_same(g1.nodes@, g2.nodes@, g1.records@[r].inputs@);
    }
    assert forall|j: int, k: int| 0 <= j < k < g2.nodes@.len() implies #[trigger] g2.nodes@[j].id
        < #[trigger] g2.nodes@[k].id by {
        if k < g1.nodes@.len() {
        } else if j < g1.nodes@.len() {
            assert(g1.node_ok(j));
        }
    }
}

} // verus!
