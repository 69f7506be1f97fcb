use stucrs::graph::Graph;
use stucrs::layers::{Layer, Linear};
use stucrs::tensor;

#[test]
fn tensor_roundtrip() {
    let t = tensor::from_vec(vec![2, 2], vec![1.0f32, 2.0, 3.0, 4.0]);
    assert_eq!(t.shape(), &vec![2usize, 2]);
    assert_eq!(tensor::to_vec(&t), vec![1.0f32, 2.0, 3.0, 4.0]);
}

#[test]
fn linear_forward_values() {
    let mut g: Graph<f32> = Graph::new();
    let x = g.new_leaf(tensor::from_vec(vec![1, 2], vec![1.0f32, 2.0]));
    let w = g.new_leaf(tensor::from_vec(vec![2, 1], vec![3.0f32, 4.0]));
    let y = g.apply_linear(x, w, None);
    assert_eq!(tensor::to_vec(&g.nodes[y].data), vec![11.0f32]);
}

#[test]
fn generation_invariant_concrete() {
    let mut g: Graph<f32> = Graph::new();
    let x = g.new_leaf(tensor::from_vec(vec![1, 1], vec![2.0f32]));
    let w1 = g.new_leaf(tensor::from_vec(vec![1, 1], vec![3.0f32]));
    let w2 = g.new_leaf(tensor::from_vec(vec![1, 1], vec![5.0f32]));
    let y1 = g.apply_linear(x, w1, None);
    let y2 = g.apply_linear(y1, w2, None);
    assert_eq!(g.nodes[x].generation, 0);
    assert_eq!(g.nodes[y1].generation, 1);
    assert_eq!(g.nodes[y2].generation, 2);
    assert_eq!(g.records[0].generation, 0);
    assert_eq!(g.records[1].generation, 1);
}

#[test]
fn two_layer_chain_gradient() {
    let mut g: Graph<f32> = Graph::new();
    let x = g.new_leaf(tensor::from_vec(vec![1, 1], vec![2.0f32]));
    let w1 = g.new_leaf(tensor::from_vec(vec![1, 1], vec![3.0f32]));
    let w2 = g.new_leaf(tensor::from_vec(vec![1, 1], vec![5.0f32]));
    let y1 = g.apply_linear(x, w1, None);
    let y2 = g.apply_linear(y1, w2, None);
    let loss = g.apply_sum_all(y2);
    let _ = g.backward(loss);
    let xg = g.nodes[x].grad.expect("x gradient");
    assert_eq!(tensor::to_vec(&g.nodes[xg].data), vec![15.0f32]);
}

#[test]
fn gradient_additivity() {
    let mut g: Graph<f32> = Graph::new();
    let x = g.new_leaf(tensor::from_vec(vec![1, 1], vec![2.0f32]));
    let w1 = g.new_leaf(tensor::from_vec(vec![1, 1], vec![3.0f32]));
    let w2 = g.new_leaf(tensor::from_vec(vec![1, 1], vec![5.0f32]));
    let y1 = g.apply_linear(x, w1, None);
    let y2 = g.apply_linear(x, w2, None);
    let s = g.apply_add(y1, y2);
    let loss = g.apply_sum_all(s);
    let _ = g.backward(loss);
    let xg = g.nodes[x].grad.expect("x gradient");
    assert_eq!(tensor::to_vec(&g.nodes[xg].data), vec![3.0f32 + 5.0]);

    let mut g2: Graph<f32> = Graph::new();
    let x2 = g2.new_leaf(tensor::from_vec(vec![1, 1], vec![2.0f32]));
    let w = g2.new_leaf(tensor::from_vec(vec![1, 1], vec![3.0f32]));
    let y = g2.apply_linear(x2, w, None);
    let loss2 = g2.apply_sum_all(y);
    let _ = g2.backward(loss2);
    let xg2 = g2.nodes[x2].grad.expect("x gradient");
    assert_eq!(tensor::to_vec(&g2.nodes[xg2].data), vec![3.0f32]);
}

#[test]
fn untouched_terminal_keeps_seed() {
    let mut g: Graph<f32> = Graph::new();
    let x = g.new_leaf(tensor::from_vec(vec![2], vec![1.0f32, 2.0]));
    let _ = g.backward(x);
    let xg = g.nodes[x].grad.expect("seeded gradient");
    assert_eq!(tensor::to_vec(&g.nodes[xg].data), vec![1.0f32, 1.0]);
}

#[test]
fn lazy_init_idempotent() {
    let mut g: Graph<f32> = Graph::new();
    let mut l = Linear::<f32>::new(&mut g, 2, false, None);
    assert_eq!(l.params().len(), 0);
    let x1 = g.new_leaf(tensor::from_vec(vec![1, 3], vec![1.0f32, 2.0, 3.0]));
    let _y1 = l.call(&mut g, x1);
    assert_eq!(l.params().len(), 1);
    let id1 = l.params()[0].0;
    let x2 = g.new_leaf(tensor::from_vec(vec![1, 3], vec![4.0f32, 5.0, 6.0]));
    let _y2 = l.call(&mut g, x2);
    assert_eq!(l.params().len(), 1);
    assert_eq!(l.params()[0].0, id1);
}

#[test]
fn eager_init_shapes() {
    let mut g: Graph<f32> = Graph::new();
    let l = Linear::<f32>::new(&mut g, 2, true, Some(3));
    assert_eq!(l.params().len(), 2);
    let mut saw_weight = false;
    let mut saw_bias = false;
    for &(_, idx) in l.params().iter() {
        let sh = g.nodes[idx].data.shape();
        if sh.len() == 2 {
            assert_eq!(sh, &vec![3usize, 2]);
            saw_weight = true;
        } else {
            assert_eq!(sh, &vec![2usize]);
            saw_bias = true;
        }
    }
    assert!(saw_weight && saw_bias);
}

#[test]
fn layer_bookkeeping() {
    let mut g: Graph<f32> = Graph::new();
    let mut l = Linear::<f32>::new(&mut g, 2, false, Some(2));
    let lid = l.get_id();
    assert!(lid >= 1);
    let x = g.new_leaf(tensor::from_vec(vec![1, 2], vec![1.0f32, 2.0]));
    let y = l.call(&mut g, x);
    assert_eq!(l.get_input(), x);
    assert_eq!(l.get_output(), y);
    assert_eq!(l.get_generation(), 0);
    assert_eq!(g.nodes[y].data.shape(), &vec![1usize, 2]);
}

#[test]
fn cleargrad_resets() {
    let mut g: Graph<f32> = Graph::new();
    let mut l = Linear::<f32>::new(&mut g, 2, true, Some(3));
    let x = g.new_leaf(tensor::from_vec(vec![1, 3], vec![1.0f32, 2.0, 3.0]));
    let y = l.call(&mut g, x);
    let loss = g.apply_sum_all(y);
    let _ = g.backward(loss);
    for &(_, idx) in l.params().iter() {
        assert!(g.nodes[idx].grad.is_some());
    }
    let reg = l.params().clone();
    l.cleargrad(&mut g);
    for &(_, idx) in reg.iter() {
        assert!(g.nodes[idx].grad.is_none());
    }
}

#[test]
fn update_rule_exact() {
    let mut g: Graph<f32> = Graph::new();
    let mut l = Linear::<f32>::new(&mut g, 1, false, None);
    let p = g.new_leaf(tensor::from_vec(vec![2], vec![1.0f32, 2.0]));
    l.set_params(&g, p);
    g.accumulate_grad(p, tensor::from_vec(vec![2], vec![0.5f32, 0.25]));
    l.update_params(&mut g, 0.1f32);
    let d = tensor::to_vec(&g.nodes[p].data);
    assert_eq!(d[0], 1.0f32 - 0.5f32 * 0.1f32);
    assert_eq!(d[1], 2.0f32 - 0.25f32 * 0.1f32);
}

#[test]
fn end_to_end_linear() {
    let mut g: Graph<f32> = Graph::new();
    let mut l = Linear::<f32>::new(&mut g, 3, true, None);
    let x = g.new_leaf(tensor::from_vec(vec![2, 4], vec![0.5f32; 8]));
    let y = l.call(&mut g, x);
    let mut widx = usize::MAX;
    let mut bidx = usize::MAX;
    for &(_, idx) in l.params().iter() {
        if g.nodes[idx].data.shape().len() == 2 {
            widx = idx;
        } else {
            bidx = idx;
        }
    }
    assert_eq!(g.nodes[widx].data.shape(), &vec![4usize, 3]);
    assert_eq!(g.nodes[bidx].data.shape(), &vec![3usize]);
    assert_eq!(g.nodes[y].data.shape(), &vec![2usize, 3]);
    let loss = g.apply_sum_all(y);
    let _ = g.backward(loss);
    let wg = g.nodes[widx].grad.expect("weight gradient");
    let bg = g.nodes[bidx].grad.expect("bias gradient");
    assert_eq!(g.nodes[wg].data.shape(), &vec![4usize, 3]);
    assert_eq!(g.nodes[bg].data.shape(), &vec![3usize]);
    let w_old = tensor::to_vec(&g.nodes[widx].data);
    let w_grad = tensor::to_vec(&g.nodes[wg].data);
    l.update_params(&mut g, 0.1f32);
    let w_new = tensor::to_vec(&g.nodes[widx].data);
    for k in 0..w_old.len() {
        assert_eq!(w_new[k], w_old[k] - w_grad[k] * 0.1f32);
    }
}

#[test]
fn bias_gradient_is_column_count() {
    let mut g: Graph<f32> = Graph::new();
    let x = g.new_leaf(tensor::from_vec(vec![2, 1], vec![1.0f32, 1.0]));
    let w = g.new_leaf(tensor::from_vec(vec![1, 1], vec![2.0f32]));
    let b = g.new_leaf(tensor::from_vec(vec![1], vec![0.5f32]));
    let y = g.apply_linear(x, w, Some(b));
    assert_eq!(tensor::to_vec(&g.nodes[y].data), vec![2.5f32, 2.5]);
    let loss = g.apply_sum_all(y);
    let _ = g.backward(loss);
    let bgi = g.nodes[b].grad.expect("bias gradient");
    assert_eq!(tensor::to_vec(&g.nodes[bgi].data), vec![2.0f32]);
}
