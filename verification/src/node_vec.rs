//! A vector with one entry for every node of a graph.

use crate::graph::Graph;
use core::marker::PhantomData;
use vstd::prelude::*;
use vstd::std_specs::iter::IteratorSpec;

verus! {

pub struct NodeVec<G: Graph, T> {
    pub vec: Vec<T>,
    pub graph: PhantomData<G>,
}

impl<G: Graph, T: Clone> NodeVec<G, T> {
    /// One clone of `default` for every node of `graph`.
    pub fn from_elem(graph: &G, default: &T) -> (r: Self)
        requires
            graph.wf(),
        ensures
            r.vec.len() == graph.node_count(),
            forall|i: int| 0 <= i < r.vec.len() ==> cloned::<T>(*default, #[trigger] r.vec[i]),
    {
        Self::from_elem_with_len(graph.num_nodes(), default)
    }

    /// `num_nodes` clones of `default`.
    pub fn from_elem_with_len(num_nodes: usize, default: &T) -> (r: Self)
        ensures
            r.vec.len() == num_nodes,
            forall|i: int| 0 <= i < r.vec.len() ==> cloned::<T>(*default, #[trigger] r.vec[i]),
    {
        let mut vec: Vec<T> = Vec::new();
        let mut i: usize = 0;
        while i < num_nodes
            invariant
                i <= num_nodes,
                vec.len() == i,
                forall|j: int| 0 <= j < i ==> cloned::<T>(*default, #[trigger] vec[j]),
            decreases num_nodes - i,
        {
            vec.push(default.clone());
            i += 1;
        }
        NodeVec { vec, graph: PhantomData }
    }
}

impl<G: Graph, T: Default> NodeVec<G, T> {
    /// The default value of `T` for every node of `graph`.
    pub fn from_default(graph: &G) -> (r: Self)
        requires
            graph.wf(),
        ensures
            r.vec.len() == graph.node_count(),
            forall|i: int| 0 <= i < r.vec.len() ==> call_ensures(T::default, (), #[trigger] r.vec[i]),
    {
        Self::from_default_with_len(graph.num_nodes())
    }

    /// `num_nodes` times the default value of `T`.
    pub fn from_default_with_len(num_nodes: usize) -> (r: Self)
        ensures
            r.vec.len() == num_nodes,
            forall|i: int| 0 <= i < r.vec.len() ==> call_ensures(T::default, (), #[trigger] r.vec[i]),
    {
        let mut vec: Vec<T> = Vec::new();
        let mut i: usize = 0;
        while i < num_nodes
            invariant
                i <= num_nodes,
                vec.len() == i,
                forall|j: int| 0 <= j < i ==> call_ensures(T::default, (), #[trigger] vec[j]),
            decreases num_nodes - i,
        {
            vec.push(T::default());
            i += 1;
        }
        NodeVec { vec, graph: PhantomData }
    }
}

impl<G: Graph, T> NodeVec<G, T> {
    /// The entry of node `i` is what `f` returns for `i`.
    pub fn from_fn<F: Fn(usize) -> T>(graph: &G, f: F) -> (r: Self)
        requires
            graph.wf(),
            forall|i: usize| i < graph.node_count() ==> call_requires(f, (i,)),
        ensures
            r.vec.len() == graph.node_count(),
            forall|i: int| 0 <= i < r.vec.len() ==> call_ensures(f, (i as usize,), #[trigger] r.vec[i]),
    {
        Self::from_fn_with_len(graph.num_nodes(), f)
    }

    /// The entry at `i` is what `f` returns for `i`, for `i` below
    /// `num_nodes`.
    pub fn from_fn_with_len<F: Fn(usize) -> T>(num_nodes: usize, f: F) -> (r: Self)
        requires
            forall|i: usize| i < num_nodes ==> call_requires(f, (i,)),
        ensures
            r.vec.len() == num_nodes,
            forall|i: int| 0 <= i < r.vec.len() ==> call_ensures(f, (i as usize,), #[trigger] r.vec[i]),
    {
        let mut vec: Vec<T> = Vec::new();
        let mut i: usize = 0;
        while i < num_nodes
            invariant
                i <= num_nodes,
                vec.len() == i,
                forall|k: usize| k < num_nodes ==> call_requires(f, (k,)),
                forall|j: int| 0 <= j < i ==> call_ensures(f, (j as usize,), #[trigger] vec[j]),
            decreases num_nodes - i,
        {
            vec.push(f(i));
            i += 1;
        }
        NodeVec { vec, graph: PhantomData }
    }

    /// The entries, in node order: an iterator over the slice of all
    /// entries, which has all of them left to hand out.
    pub fn iter(&self) -> (r: core::slice::Iter<'_, T>)
        ensures
            IteratorSpec::remaining(&r) == self.vec@.as_ref(),
    {
        let entries = self.vec.as_slice();
        entries.iter()
    }

    pub fn len(&self) -> (n: usize)
        ensures
            n == self.vec.len(),
    {
        self.vec.len()
    }

    /// The entry of `node`.
    pub fn get(&self, node: usize) -> (r: &T)
        requires
            node < self.vec.len(),
        ensures
            *r == self.vec[node as int],
    {
        &self.vec[node]
    }

    /// Replaces the entry of `node`.
    pub fn set(&mut self, node: usize, value: T)
        requires
            node < old(self).vec.len(),
        ensures
            final(self).vec@ == old(self).vec@.update(node as int, value),
    {
        self.vec.set(node, value);
    }
}

} // verus!
