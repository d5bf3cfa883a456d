//! An ensemble of identically trained decision trees combined by majority
//! vote.  Every member is trained on the same full dataset with the same
//! depth limit (no resampling), so the members end up identical and the vote
//! is unanimous; the voting rule is still implemented and verified in full.

use crate::decision_tree::check_valid;
use crate::decision_tree::is_mode;
use crate::decision_tree::mode_spec;
use crate::decision_tree::most_common;
use crate::decision_tree::predict_inst_spec;
use crate::decision_tree::rows_view;
use crate::decision_tree::train_spec;
use crate::decision_tree::valid_dataset;
use crate::decision_tree::DecisionTree;
use crate::decision_tree::ModelError;
use crate::decision_tree::Node;
use crate::decision_tree::MAX_ROWS;
use vstd::prelude::*;

verus! {

/// A fixed-size collection of independently owned decision trees that
/// predicts by majority vote over the members' predictions.
pub struct RandomForest {
    trees: Vec<DecisionTree>,
}

impl View for RandomForest {
    type V = Seq<Option<Node>>;

    closed spec fn view(&self) -> Seq<Option<Node>> {
        Seq::new(self.trees@.len(), |i: int| self.trees@[i]@)
    }
}

/// Every member tree is trained and its traversal of `x` returns a label.
pub open spec fn all_votes_ok(trees: Seq<Option<Node>>, x: Seq<i32>) -> bool {
    forall|j: int|
        0 <= j < trees.len() ==> ((#[trigger] trees[j]) matches Some(n) && predict_inst_spec(n, x)
            is Some)
}

/// Some member tree's prediction on `x` is exactly `lab`.
pub open spec fn some_member_voted(trees: Seq<Option<Node>>, x: Seq<i32>, lab: usize) -> bool {
    exists|j: int|
        0 <= j < trees.len() && #[trigger] predict_inst_spec(trees[j]->Some_0, x) == Some(lab)
}

/// The member trees' votes on instance `x`, in member order.
pub open spec fn votes_spec(trees: Seq<Option<Node>>, x: Seq<i32>) -> Seq<usize> {
    Seq::new(trees.len(), |j: int| predict_inst_spec(trees[j]->Some_0, x)->Some_0)
}

impl RandomForest {
    /// A forest of `n_trees` untrained member trees.
    pub fn new(n_trees: usize) -> (rf: RandomForest)
        requires
            n_trees >= 1,
        ensures
            rf@.len() == n_trees,
            forall|j: int| 0 <= j < rf@.len() ==> rf@[j] is None,
    {
        let mut trees: Vec<DecisionTree> = Vec::new();
        let mut k: usize = 0;
        while k < n_trees
            invariant
                0 <= k <= n_trees,
                trees@.len() == k,
                forall|j: int| 0 <= j < k ==> #[trigger] trees@[j]@ is None,
            decreases n_trees - k,
        {
            trees.push(DecisionTree::new());
            k = k + 1;
        }
        RandomForest { trees }
    }

    /// Trains every member tree independently on the same full dataset and
    /// depth limit.  On a valid dataset every member becomes the same
    /// `train_spec` tree; on a malformed one the forest is unchanged and the
    /// error says so.
    pub fn train(&mut self, data: &Vec<Vec<i32>>, labels: &Vec<usize>, max_depth: usize) -> (r:
        Result<(), ModelError>)
        requires
            data@.len() <= MAX_ROWS,
        ensures
            final(self)@.len() == old(self)@.len(),
            valid_dataset(rows_view(*data), labels@) ==> r is Ok && (forall|j: int|
                0 <= j < final(self)@.len() ==> final(self)@[j] == Some(
                    train_spec(rows_view(*data), labels@, max_depth as nat),
                )),
            !valid_dataset(rows_view(*data), labels@) ==> r == Err::<(), ModelError>(
                ModelError::InvalidInput,
            ) && final(self)@ == old(self)@,
    {
        if !check_valid(data, labels) {
            return Err(ModelError::InvalidInput);
        }
        let n = self.trees.len();
        let mut k: usize = 0;
        while k < n
            invariant
                0 <= k <= n,
                n == self.trees@.len(),
                valid_dataset(rows_view(*data), labels@),
                data@.len() <= MAX_ROWS,
                forall|j: int|
                    0 <= j < k ==> #[trigger] self.trees@[j]@ == Some(
                        train_spec(rows_view(*data), labels@, max_depth as nat),
                    ),
            decreases n - k,
        {
            let mut t = DecisionTree::new();
            let res = t.train(data, labels, max_depth);
            match res {
                Result::Ok(()) => {},
                Result::Err(_) => {
                    proof {
                        assert(false);
                    }
                },
            }
            self.trees.set(k, t);
            k = k + 1;
        }
        Ok(())
    }

    /// Majority vote: for each instance, every member tree votes with its
    /// own prediction and the most frequent label wins, smallest label on
    /// ties.  The output has one label per instance, in input order, and
    /// each output label was voted by at least one member tree.  Fails with
    /// `Untrained` exactly when some member was never trained, and with
    /// `IndexOutOfRange` exactly when some member's traversal of some
    /// instance runs past the instance's length.
    pub fn predict(&self, data: &Vec<Vec<i32>>) -> (r: Result<Vec<usize>, ModelError>)
        requires
            self@.len() >= 1,
        ensures
            (exists|j: int| 0 <= j < self@.len() && (#[trigger] self@[j]) is None) ==> r == Err::<
                Vec<usize>,
                ModelError,
            >(ModelError::Untrained),
            (forall|j: int| 0 <= j < self@.len() ==> (#[trigger] self@[j]) is Some) ==> ((forall|
                i: int,
            |
                0 <= i < data@.len() ==> all_votes_ok(self@, #[trigger] data@[i]@)) ==> (r matches Ok(
                out,
            ) && out@.len() == data@.len() && (forall|i: int|
                0 <= i < data@.len() ==> #[trigger] out@[i] == mode_spec(
                    votes_spec(self@, data@[i]@),
                ) && is_mode(votes_spec(self@, data@[i]@), out@[i])) && (forall|i: int|
                0 <= i < data@.len() ==> #[trigger] some_member_voted(
                    self@,
                    data@[i]@,
                    out@[i],
                )))),
            (forall|j: int| 0 <= j < self@.len() ==> (#[trigger] self@[j]) is Some) ==> (!(forall|
                i: int,
            |
                0 <= i < data@.len() ==> all_votes_ok(self@, #[trigger] data@[i]@)) ==> r == Err::<
                Vec<usize>,
                ModelError,
            >(ModelError::IndexOutOfRange)),
    {
        let n_trees = self.trees.len();
        let mut k: usize = 0;
        while k < n_trees
            invariant
                0 <= k <= n_trees,
                n_trees == self@.len(),
                forall|j: int| 0 <= j < k ==> (#[trigger] self@[j]) is Some,
            decreases n_trees - k,
        {
            if !self.trees[k].trained() {
                proof {
                    assert(self@[k as int] is None);
                }
                return Err(ModelError::Untrained);
            }
            k = k + 1;
        }
        let mut out: Vec<usize> = Vec::new();
        let mut i: usize = 0;
        while i < data.len()
            invariant
                0 <= i <= data@.len(),
                n_trees == self@.len(),
                n_trees >= 1,
                out@.len() == i,
                forall|j: int| 0 <= j < self@.len() ==> (#[trigger] self@[j]) is Some,
                forall|k2: int| 0 <= k2 < i ==> all_votes_ok(self@, #[trigger] data@[k2]@),
                forall|k2: int|
                    0 <= k2 < i ==> #[trigger] out@[k2] == mode_spec(votes_spec(self@, data@[k2]@))
                        && is_mode(votes_spec(self@, data@[k2]@), out@[k2]),
            decreases data@.len() - i,
        {
            let mut votes: Vec<usize> = Vec::new();
            let mut j: usize = 0;
            while j < n_trees
                invariant
                    0 <= j <= n_trees,
                    n_trees == self@.len(),
                    votes@.len() == j,
                    0 <= i < data@.len(),
                    forall|q: int| 0 <= q < self@.len() ==> (#[trigger] self@[q]) is Some,
                    forall|q: int|
                        0 <= q < j ==> #[trigger] predict_inst_spec(self@[q]->Some_0, data@[i as int]@)
                            == Some(votes@[q]),
                decreases n_trees - j,
            {
                let vote = self.trees[j].predict_instance(&data[i]);
                match vote {
                    Result::Ok(lab) => {
                        votes.push(lab);
                    },
                    Result::Err(_) => {
                        proof {
                            assert(predict_inst_spec(self@[j as int]->Some_0, data@[i as int]@)
                                is None);
                            assert(!all_votes_ok(self@, data@[i as int]@));
                        }
                        return Err(ModelError::IndexOutOfRange);
                    },
                }
                j = j + 1;
            }
            proof {
                assert(votes@ =~= votes_spec(self@, data@[i as int]@));
                assert(all_votes_ok(self@, data@[i as int]@));
            }
            let lab = most_common(&votes);
            out.push(lab);
            i = i + 1;
        }
        proof {
            assert forall|i2: int| 0 <= i2 < data@.len() implies #[trigger] some_member_voted(
                self@,
                data@[i2]@,
                out@[i2],
            ) by {
                let vs = votes_spec(self@, data@[i2]@);
                assert(is_mode(vs, out@[i2]));
                assert(vs.contains(out@[i2]));
                let q = choose|q: int| 0 <= q < vs.len() && vs[q] == out@[i2];
                assert(predict_inst_spec(self@[q]->Some_0, data@[i2]@) is Some);
                assert(predict_inst_spec(self@[q]->Some_0, data@[i2]@) == Some(out@[i2]));
            }
        }
        Ok(out)
    }
}

/// A forest of `n_trees` untrained member trees.
pub fn create_random_forest(n_trees: usize) -> (rf: RandomForest)
    requires
        n_trees >= 1,
    ensures
        rf@.len() == n_trees,
        forall|j: int| 0 <= j < rf@.len() ==> rf@[j] is None,
{
    RandomForest::new(n_trees)
}

} // verus!
