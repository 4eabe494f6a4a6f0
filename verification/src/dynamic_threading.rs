use std::collections::HashMap;
use vstd::prelude::*;

use crate::text::{chars_to_string, decimal, push_decimal, parsed_unsigned, lemma_decimal_parses};

verus! {

broadcast use vstd::std_specs::hash::group_hash_axioms;

/// What a new client thread is started with.
pub struct ClientThread {
    /// The number the thread is known by in the pool.
    pub id: usize,
    /// The thread's name.
    pub name: String,
    /// The stack size the thread gets, in bytes.
    pub stack_size: usize,
}

/// The name of the thread that serves client `id`.
pub open spec fn thread_name(id: nat) -> Seq<char> {
    "C-"@ + decimal(id)
}

/// The pool of threads serving clients, each known by a number given in the order the
/// clients came; `H` is what the caller keeps of a running thread.
pub struct DynamicThreading<H> {
    counter: usize,
    pool: HashMap<usize, H>,
    thread_stack_memory: usize,
}

impl<H> DynamicThreading<H> {
    /// The number the next client will get.
    pub closed spec fn next_id(&self) -> nat {
        self.counter as nat
    }

    /// The running threads, by number.
    pub closed spec fn active(&self) -> Map<usize, H> {
        self.pool@
    }

    /// The stack size given to each thread.
    pub closed spec fn stack_size(&self) -> usize {
        self.thread_stack_memory
    }

    /// Every running thread has a number below the next one.
    #[verifier::type_invariant]
    pub closed spec fn numbers_below_next(&self) -> bool {
        forall|id: usize| #[trigger] self.pool@.contains_key(id) ==> id < self.counter
    }

    /// An empty pool whose threads get `thread_stack_memory` bytes of stack; room for
    /// `limit` threads is set aside.
    pub fn new(limit: usize, thread_stack_memory: usize) -> (res: DynamicThreading<H>)
        ensures
            res.next_id() == 0,
            res.active() == Map::<usize, H>::empty(),
            res.stack_size() == thread_stack_memory,
    {
        DynamicThreading { counter: 0, pool: HashMap::with_capacity(limit), thread_stack_memory }
    }

    /// The number of running threads.
    pub fn active_count(&self) -> (res: usize)
        ensures
            res == self.active().len(),
    {
        self.pool.len()
    }

    /// What the thread for the next client is to be started with: its number, its name
    /// `C-<number>`, and the pool's stack size. The number is not in use.
    pub fn next_client(&self) -> (res: ClientThread)
        ensures
            res.id == self.next_id(),
            res.name@ == thread_name(res.id as nat),
            res.stack_size == self.stack_size(),
            !self.active().contains_key(res.id),
    {
        proof {
            use_type_invariant(self);
        }
        let mut name: Vec<char> = Vec::new();
        name.push('C');
        name.push('-');
        push_decimal(&mut name, self.counter);
        assert(name@ =~= thread_name(self.counter as nat)) by {
            reveal_strlit("C-");
        }
        ClientThread { id: self.counter, name: chars_to_string(&name), stack_size: self.thread_stack_memory }
    }

    /// Takes in the thread started for the next client: it runs under the next number,
    /// and the number after it becomes the next.
    pub fn handle_client(&mut self, thread: H)
        requires
            old(self).next_id() < usize::MAX,
        ensures
            final(self).active() == old(self).active().insert(old(self).next_id() as usize, thread),
            final(self).next_id() == old(self).next_id() + 1,
            final(self).stack_size() == old(self).stack_size(),
    {
        proof {
            use_type_invariant(&*self);
        }
        let id = self.counter;
        let mut pool = HashMap::new();
        std::mem::swap(&mut pool, &mut self.pool);
        pool.insert(id, thread);
        self.counter = id + 1;
        self.pool = pool;
    }

    /// Lets go of the thread of client `id`, which has finished, and gives it back.
    pub fn client_finished(&mut self, id: usize) -> (res: Option<H>)
        ensures
            final(self).active() == old(self).active().remove(id),
            final(self).next_id() == old(self).next_id(),
            final(self).stack_size() == old(self).stack_size(),
            match res {
                Some(h) => old(self).active().contains_key(id) && h == old(self).active()[id],
                None => !old(self).active().contains_key(id),
            },
    {
        proof {
            use_type_invariant(&*self);
        }
        let mut pool = HashMap::new();
        std::mem::swap(&mut pool, &mut self.pool);
        let res = pool.remove(&id);
        self.pool = pool;
        res
    }
}

/// A client that came and finished leaves the running threads as they were before it came.
pub proof fn finished_client_leaves_no_trace<H>(before: Map<usize, H>, id: usize, thread: H)
    requires
        !before.contains_key(id),
    ensures
        before.insert(id, thread).remove(id) == before,
{
    assert(before.insert(id, thread).remove(id) =~= before);
}

/// A thread's name is `C-` followed by its number, which reads back from the name, so
/// no two clients' threads share a name.
pub proof fn thread_names_tell_clients_apart(a: nat, b: nat)
    requires
        a <= usize::MAX,
        b <= usize::MAX,
    ensures
        thread_name(a).take(2) == seq!['C', '-'],
        parsed_unsigned(thread_name(a).skip(2), usize::MAX as nat) == Some(a),
        thread_name(a) == thread_name(b) ==> a == b,
{
    reveal_strlit("C-");
    assert(thread_name(a).take(2) =~= seq!['C', '-']);
    assert(thread_name(a).skip(2) =~= decimal(a));
    assert(thread_name(b).skip(2) =~= decimal(b));
    lemma_decimal_parses(a, usize::MAX as nat);
    lemma_decimal_parses(b, usize::MAX as nat);
}

/// The pool after each of a run of `handle_client` calls that started from an empty pool.
pub open spec fn client_run<H>(states: Seq<DynamicThreading<H>>, threads: Seq<H>) -> bool {
    &&& states.len() == threads.len() + 1
    &&& states[0].next_id() == 0
    &&& states[0].active() == Map::<usize, H>::empty()
    &&& forall|k: int|
        0 <= k < threads.len() ==> {
            &&& #[trigger] states[k + 1].next_id() == states[k].next_id() + 1
            &&& states[k + 1].active() == states[k].active().insert(states[k].next_id() as usize, threads[k])
        }
}

proof fn lemma_client_run_prefix<H>(states: Seq<DynamicThreading<H>>, threads: Seq<H>, k: int)
    requires
        client_run(states, threads),
        0 <= k < states.len(),
    ensures
        states[k].next_id() == k,
        states[k].active().dom().finite(),
        states[k].active().len() == k,
        forall|i: usize| #[trigger] states[k].active().contains_key(i) <==> i < k,
        forall|i: usize| i < k ==> #[trigger] states[k].active()[i] == threads[i as int],
    decreases k,
{
    if k == 0 {
        assert(states[0].active().dom() =~= Set::<usize>::empty());
    } else {
        lemma_client_run_prefix(states, threads, k - 1);
        let before = states[k - 1].active();
        assert(states[k].next_id() == states[k - 1].next_id() + 1);
        let id = (k - 1) as usize;
        assert(states[k].active() == before.insert(id, threads[k - 1]));
        assert(!before.contains_key(id));
        assert(states[k].active().dom() =~= before.dom().insert(id));
    }
}

/// Clients are numbered 0, 1, 2, ... in the order they come, and none takes another's
/// place: after an empty pool has taken in `threads` one by one, the next number is their
/// count, the pool holds every one of them (the i-th under number i), and it holds as
/// many threads as came, whatever limit the pool was made with; no call was refused, as
/// each found the next number below `usize::MAX`.
pub proof fn clients_numbered_in_order<H>(states: Seq<DynamicThreading<H>>, threads: Seq<H>)
    requires
        client_run(states, threads),
    ensures
        forall|k: int| 0 <= k < states.len() ==> #[trigger] states[k].next_id() == k,
        forall|k: int| 0 <= k < threads.len() ==> #[trigger] states[k].next_id() < usize::MAX,
        forall|i: usize| #[trigger] states.last().active().contains_key(i) <==> i < threads.len(),
        forall|i: usize| i < threads.len() ==> #[trigger] states.last().active()[i] == threads[i as int],
        states.last().active().len() == threads.len(),
{
    assert forall|k: int| 0 <= k < states.len() implies #[trigger] states[k].next_id() == k by {
        lemma_client_run_prefix(states, threads, k);
    }
    assert forall|k: int| 0 <= k < threads.len() implies #[trigger] states[k].next_id() < usize::MAX by {
        lemma_client_run_prefix(states, threads, k + 1);
        assert(states[k + 1].next_id() == states[k].next_id() + 1);
    }
    lemma_client_run_prefix(states, threads, threads.len() as int);
}

} // verus!
