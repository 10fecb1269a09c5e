//! Paired input and target rows, shuffled together.

use crate::random::random_index;
use vstd::prelude::*;
use vstd::seq_lib::to_multiset_update;

verus! {

/// Why training data could not be built.
#[derive(Debug, Clone, Copy, PartialEq, Eq, Structural)]
pub enum TrainingDataError {
    /// The inputs and the targets differ in number.
    SizeMismatch,
}

/// Inputs and targets, row `i` of one paired with row `i` of the other.
pub struct TrainingData<T> {
    pub inputs: Vec<Vec<T>>,
    pub targets: Vec<Vec<T>>,
}

/// `s` with the elements at `i` and `j` exchanged.
pub open spec fn swap_spec<A>(s: Seq<A>, i: int, j: int) -> Seq<A> {
    s.update(i, s[j]).update(j, s[i])
}

/// The first `k` steps of a Fisher-Yates pass over `s`: step `i` exchanges
/// positions `i` and `draws[i]`.
pub open spec fn shuffle_spec<A>(s: Seq<A>, draws: Seq<usize>, k: nat) -> Seq<A>
    decreases k,
{
    if k == 0 {
        s
    } else {
        swap_spec(shuffle_spec(s, draws, (k - 1) as nat), k - 1, draws[k - 1] as int)
    }
}

/// One draw per position, each from `i..n` for position `i`.
pub open spec fn valid_draws(draws: Seq<usize>, n: nat) -> bool {
    &&& draws.len() == n
    &&& forall|i: int| 0 <= i < n ==> i <= #[trigger] draws[i] < n
}

/// The rows of `a` and `b` side by side.
pub open spec fn pairs<A, B>(a: Seq<A>, b: Seq<B>) -> Seq<(A, B)> {
    Seq::new(a.len(), |i: int| (a[i], b[i]))
}

impl<T> TrainingData<T> {
    pub open spec fn wf(&self) -> bool {
        self.inputs@.len() == self.targets@.len()
    }

    /// Pairs `inputs` with `targets`; `SizeMismatch` when they differ in
    /// number.
    pub fn new(inputs: Vec<Vec<T>>, targets: Vec<Vec<T>>) -> (r: Result<
        TrainingData<T>,
        TrainingDataError,
    >)
        ensures
            r is Ok <==> inputs@.len() == targets@.len(),
            r matches Ok(d) ==> d.wf() && d.inputs@ == inputs@ && d.targets@ == targets@,
    {
        if inputs.len() != targets.len() {
            return Err(TrainingDataError::SizeMismatch);
        }
        Ok(TrainingData { inputs, targets })
    }

    /// Applies the Fisher-Yates pass given by `draws` to the inputs and the
    /// targets alike.
    pub fn shuffle_with(self, draws: &Vec<usize>) -> (r: TrainingData<T>)
        requires
            self.wf(),
            valid_draws(draws@, self.inputs@.len()),
        ensures
            r.wf(),
            r.inputs@ == shuffle_spec(self.inputs@, draws@, self.inputs@.len()),
            r.targets@ == shuffle_spec(self.targets@, draws@, self.targets@.len()),
    {
        let TrainingData { mut inputs, mut targets } = self;
        let n = inputs.len();
        let ghost ins = inputs@;
        let ghost tgs = targets@;
        let mut i: usize = 0;
        while i < n
            invariant
                n == ins.len(),
                n == tgs.len(),
                valid_draws(draws@, n as nat),
                i <= n,
                inputs@.len() == n,
                targets@.len() == n,
                inputs@ == shuffle_spec(ins, draws@, i as nat),
                targets@ == shuffle_spec(tgs, draws@, i as nat),
            decreases n - i,
        {
            let j = draws[i];
            swap_rows(&mut inputs, i, j);
            swap_rows(&mut targets, i, j);
            i = i + 1;
        }
        TrainingData { inputs, targets }
    }

    /// A co-shuffle of the inputs and the targets: a Fisher-Yates pass whose
    /// draws come from the thread-local generator. Each input stays with its
    /// target, and the multiset of pairs is kept.
    pub fn shuffle(self) -> (r: TrainingData<T>)
        requires
            self.wf(),
        ensures
            r.wf(),
            exists|draws: Seq<usize>|
                valid_draws(draws, self.inputs@.len()) && r.inputs@ == shuffle_spec(
                    self.inputs@,
                    draws,
                    self.inputs@.len(),
                ) && r.targets@ == shuffle_spec(self.targets@, draws, self.targets@.len()),
            pairs(r.inputs@, r.targets@).to_multiset() == pairs(
                self.inputs@,
                self.targets@,
            ).to_multiset(),
    {
        let n = self.inputs.len();
        let mut draws: Vec<usize> = Vec::with_capacity(n);
        let mut i: usize = 0;
        while i < n
            invariant
                i <= n,
                draws@.len() == i,
                forall|a: int| 0 <= a < i ==> a <= #[trigger] draws@[a] < n,
            decreases n - i,
        {
            let j = random_index(i, n);
            draws.push(j);
            i = i + 1;
        }
        let ghost ins = self.inputs@;
        let ghost tgs = self.targets@;
        proof {
            lemma_shuffle_keeps_pairs(ins, tgs, draws@);
        }
        self.shuffle_with(&draws)
    }
}

/// Exchanges rows `i` and `j` of `v`.
fn swap_rows<T>(v: &mut Vec<Vec<T>>, i: usize, j: usize)
    requires
        i < old(v)@.len(),
        j < old(v)@.len(),
    ensures
        final(v)@ == swap_spec(old(v)@, i as int, j as int),
{
    if i == j {
        proof {
            assert(v@ =~= swap_spec(old(v)@, i as int, j as int));
        }
        return;
    }
    let mut held: Vec<T> = Vec::new();
    std::mem::swap(&mut held, &mut v[i]);
    std::mem::swap(&mut held, &mut v[j]);
    std::mem::swap(&mut held, &mut v[i]);
    proof {
        assert(v@ =~= swap_spec(old(v)@, i as int, j as int));
    }
}

proof fn lemma_swap_keeps_multiset<A>(s: Seq<A>, i: int, j: int)
    requires
        0 <= i < s.len(),
        0 <= j < s.len(),
    ensures
        swap_spec(s, i, j).to_multiset() == s.to_multiset(),
{
    broadcast use vstd::multiset::group_multiset_properties;
    broadcast use vstd::multiset::group_multiset_axioms;

    let s1 = s.update(i, s[j]);
    to_multiset_update(s, i, s[j]);
    to_multiset_update(s1, j, s[i]);
    if i == j {
        assert(swap_spec(s, i, j) =~= s);
    } else {
        assert(s1[j] == s[j]);
        let m = s.to_multiset();
        assert(s.contains(s[i]));
        vstd::seq_lib::to_multiset_contains(s, s[i]);
        assert(m.count(s[i]) > 0);
        assert(m.insert(s[j]).remove(s[i]).insert(s[i]).remove(s[j]) =~= m);
    }
}

proof fn lemma_pairs_swap<A, B>(a: Seq<A>, b: Seq<B>, i: int, j: int)
    requires
        a.len() == b.len(),
        0 <= i < a.len(),
        0 <= j < a.len(),
    ensures
        pairs(swap_spec(a, i, j), swap_spec(b, i, j)) == swap_spec(pairs(a, b), i, j),
{
    assert(pairs(swap_spec(a, i, j), swap_spec(b, i, j)) =~= swap_spec(pairs(a, b), i, j));
}

pub(crate) proof fn lemma_shuffle_len<A>(s: Seq<A>, draws: Seq<usize>, k: nat)
    requires
        valid_draws(draws, s.len()),
        k <= s.len(),
    ensures
        shuffle_spec(s, draws, k).len() == s.len(),
    decreases k,
{
    if k > 0 {
        lemma_shuffle_len(s, draws, (k - 1) as nat);
    }
}

proof fn lemma_shuffle_pairs_prefix<A, B>(a: Seq<A>, b: Seq<B>, draws: Seq<usize>, k: nat)
    requires
        a.len() == b.len(),
        valid_draws(draws, a.len()),
        k <= a.len(),
    ensures
        pairs(shuffle_spec(a, draws, k), shuffle_spec(b, draws, k)) == shuffle_spec(
            pairs(a, b),
            draws,
            k,
        ),
        shuffle_spec(pairs(a, b), draws, k).to_multiset() == pairs(a, b).to_multiset(),
    decreases k,
{
    if k > 0 {
        let k1 = (k - 1) as nat;
        lemma_shuffle_pairs_prefix(a, b, draws, k1);
        lemma_shuffle_len(a, draws, k1);
        lemma_shuffle_len(b, draws, k1);
        lemma_shuffle_len(pairs(a, b), draws, k1);
        let j = draws[k - 1] as int;
        lemma_pairs_swap(shuffle_spec(a, draws, k1), shuffle_spec(b, draws, k1), k - 1, j);
        lemma_swap_keeps_multiset(shuffle_spec(pairs(a, b), draws, k1), k - 1, j);
    }
}

/// A co-shuffle keeps each input with its target: the shuffled pairs are the
/// pairs it started from, as a multiset.
pub proof fn lemma_shuffle_keeps_pairs<A, B>(inputs: Seq<A>, targets: Seq<B>, draws: Seq<usize>)
    requires
        inputs.len() == targets.len(),
        valid_draws(draws, inputs.len()),
    ensures
        pairs(
            shuffle_spec(inputs, draws, inputs.len()),
            shuffle_spec(targets, draws, targets.len()),
        ).to_multiset() == pairs(inputs, targets).to_multiset(),
{
    lemma_shuffle_pairs_prefix(inputs, targets, draws, inputs.len());
}

} // verus!
