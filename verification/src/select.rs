//! Choosing at random the node from which a search starts.

use crate::graph::CharacterGraph;
use rand::rngs::ThreadRng;
use rand::seq::SliceRandom;
use vstd::prelude::*;

verus! {

/// `rand::rngs::ThreadRng`, a handle to the random number generator of the
/// thread.
#[verifier::external_type_specification]
#[verifier::external_body]
pub struct ExThreadRng(ThreadRng);

/// `rand::thread_rng`: the generator of the thread, seeded by the system.
/// Nothing is known of the numbers it will give. The outside function
/// panics where the system has no seed to give, whatever the caller does.
#[verifier::external_body]
fn thread_rng() -> ThreadRng {
    rand::thread_rng()
}

/// `SliceRandom::choose_multiple` of `rand`: as many of the items as are
/// asked for, or all of them where there are fewer, each taken from a place
/// of its own in `items`, in any order. Which ones they are is left to
/// chance.
#[verifier::external_body]
fn random_sample(rng: &mut ThreadRng, items: &Vec<usize>, sample_size: usize) -> (sample: Vec<
    usize,
>)
    ensures
        sample.len() == if sample_size <= items.len() {
            sample_size
        } else {
            items.len()
        },
        sample@.to_multiset().subset_of(items@.to_multiset()),
{
    items.choose_multiple(rng, sample_size).cloned().collect()
}

/// `SliceRandom::choose` of `rand`: one of the items, or `None` where there
/// is none. Which one is left to chance.
#[verifier::external_body]
fn random_choice(rng: &mut ThreadRng, items: &Vec<usize>) -> (choice: Option<usize>)
    ensures
        match choice {
            Some(item) => items@.contains(item),
            None => items.len() == 0,
        },
{
    items.choose(rng).copied()
}

/// The name of the node that was chosen, if one was.
pub fn chosen_name(graph: &CharacterGraph, choice: Option<usize>) -> (name: Option<String>)
    requires
        graph.wf(),
        choice matches Some(id) ==> id < graph@.names.len(),
    ensures
        match choice {
            Some(id) => name matches Some(chosen) && chosen@ == graph@.names[id as int],
            None => name is None,
        },
{
    match choice {
        Some(id) => Some(graph.node_name(id).clone()),
        None => None,
    }
}

/// The name of a node picked at random: a sample of `sample_size` nodes is
/// drawn, or of all nodes where there are fewer, and one node of the sample
/// is chosen. Gives `None` only where the graph has no node or the sample
/// is to have none.
pub fn random_start(graph: &CharacterGraph, sample_size: usize) -> (start: Option<String>)
    requires
        graph.wf(),
    ensures
        start is Some <==> graph@.names.len() > 0 && sample_size > 0,
        start matches Some(name) ==> graph@.names.contains(name@),
{
    let n = graph.node_count();
    let mut node_indices: Vec<usize> = Vec::new();
    let mut i: usize = 0;
    while i < n
        invariant
            i <= n,
            node_indices.len() == i,
            forall|k: int| 0 <= k < i ==> node_indices[k] == k,
        decreases n - i,
    {
        node_indices.push(i);
        i += 1;
    }
    let mut rng = thread_rng();
    let sample = random_sample(&mut rng, &node_indices, sample_size);
    let choice = random_choice(&mut rng, &sample);
    proof {
        if let Some(id) = choice {
            sample@.to_multiset_ensures();
            node_indices@.to_multiset_ensures();
            assert(sample@.to_multiset().count(id) > 0);
            assert(node_indices@.to_multiset().count(id) > 0);
            assert(node_indices@.contains(id));
        }
    }
    chosen_name(graph, choice)
}

} // verus!
