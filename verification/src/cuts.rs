//! Where a command buffer is cut: behind the one node of a region whose
//! values the host must answer before the next matmul reads them.

use vstd::prelude::*;

use crate::trace::ValueId;

verus! {

/// What a region has shown so far: the first value it is cut behind, and
/// the first other one, which one cut cannot serve.
#[derive(Debug, Clone, Copy, PartialEq, Eq, Structural)]
pub struct Scan {
    pub first: Option<ValueId>,
    pub clash: Option<ValueId>,
}

impl Scan {
    pub open spec fn seen(self, id: ValueId) -> Scan {
        match (self.clash, self.first) {
            (None, None) => Scan { first: Some(id), ..self },
            (None, Some(first)) => if first == id {
                self
            } else {
                Scan { clash: Some(id), ..self }
            },
            (Some(_), _) => self,
        }
    }

    /// The two values of a clash, by number.
    pub open spec fn two(self) -> (u32, u32) {
        match (self.first, self.clash) {
            (Some(first), Some(second)) => (first.0, second.0),
            _ => (0, 0),
        }
    }

    /// See one more value.
    pub fn see(&mut self, id: ValueId)
        ensures
            *final(self) == old(self).seen(id),
    {
        if self.clash.is_none() {
            match self.first {
                None => {
                    self.first = Some(id);
                },
                Some(first) => {
                    if first != id {
                        self.clash = Some(id);
                    }
                },
            }
        }
    }
}

/// What a region shows, node by node; a node that is not there or is not
/// asked about shows nothing.
pub open spec fn scan(shown: Seq<Option<ValueId>>) -> Scan
    decreases shown.len(),
{
    if shown.len() == 0 {
        Scan { first: None, clash: None }
    } else {
        match shown.last() {
            Some(id) => scan(shown.drop_last()).seen(id),
            None => scan(shown.drop_last()),
        }
    }
}

/// A region without a clash is cut behind the one value every node of it
/// that shows one shows; one with a clash shows two.
pub proof fn a_cut_serves_one_value(shown: Seq<Option<ValueId>>)
    ensures
        scan(shown).clash is None ==> forall|i: int|
            0 <= i < shown.len() && #[trigger] shown[i] is Some ==> scan(shown).first == shown[i],
        scan(shown).clash matches Some(second) ==> {
            &&& shown.contains(Some(second))
            &&& scan(shown).first is Some && scan(shown).first != Some(second)
            &&& shown.contains(scan(shown).first)
        },
        scan(shown).first matches Some(first) ==> shown.contains(Some(first)),
    decreases shown.len(),
{
    if shown.len() > 0 {
        let head = shown.drop_last();
        a_cut_serves_one_value(head);
        assert(shown[shown.len() - 1] == shown.last());
        assert forall|x: Option<ValueId>| #[trigger] head.contains(x) implies shown.contains(x) by {
            assert(shown[head.index_of(x)] == x);
        }
        assert forall|i: int| 0 <= i < head.len() implies #[trigger] head[i] == shown[i] by {}
        if scan(shown).clash is None {
            assert forall|i: int| 0 <= i < shown.len() && #[trigger] shown[i] is Some implies scan(
                shown,
            ).first == shown[i] by {
                if i < head.len() {
                    assert(head[i] == shown[i]);
                }
            }
        }
    }
}

/// A cut is for the first value shown in it, and refused for the first that
/// differs from that; where nothing is shown, or one value only, it is not.
pub proof fn a_cut_is_for_the_first_value(shown: Seq<Option<ValueId>>, i: int)
    requires
        0 <= i < shown.len(),
        shown[i] is Some,
        forall|j: int| 0 <= j < i ==> #[trigger] shown[j] is None,
    ensures
        scan(shown).first == shown[i],
        scan(shown).clash is None <==> forall|j: int|
            0 <= j < shown.len() && #[trigger] shown[j] is Some ==> shown[j] == shown[i],
        forall|k: int|
            i < k < shown.len() && #[trigger] shown[k] is Some && shown[k] != shown[i] && (forall|j: int|
                i < j < k ==> #[trigger] shown[j] is None || shown[j] == shown[i]) ==> scan(shown).clash
                == shown[k],
    decreases shown.len(),
{
    let head = shown.drop_last();
    let n = shown.len() - 1;
    assert(shown[n] == shown.last());
    if i < n {
        assert(head[i] == shown[i]);
        assert forall|j: int| 0 <= j < i implies #[trigger] head[j] is None by {
            assert(head[j] == shown[j]);
        }
        a_cut_is_for_the_first_value(head, i);
        let same = forall|j: int| 0 <= j < head.len() && #[trigger] head[j] is Some ==> head[j] == head[i];
        if same {
            assert forall|j: int| 0 <= j < n && #[trigger] shown[j] is Some implies shown[j] == shown[i] by {
                assert(head[j] == shown[j]);
            }
        } else {
            let j = choose|j: int| 0 <= j < head.len() && #[trigger] head[j] is Some && head[j] != head[i];
            assert(shown[j] is Some && shown[j] != shown[i]);
        }
        assert forall|k: int|
            i < k < shown.len() && #[trigger] shown[k] is Some && shown[k] != shown[i] && (forall|j: int|
                i < j < k ==> #[trigger] shown[j] is None || shown[j] == shown[i]) implies scan(shown).clash
            == shown[k] by {
            if k < n {
                assert(head[k] == shown[k]);
                assert forall|j: int| i < j < k implies #[trigger] head[j] is None || head[j] == head[i] by {
                    assert(head[j] == shown[j]);
                }
                assert(scan(head).clash == head[k]);
            } else {
                assert(same) by {
                    assert forall|j: int| 0 <= j < head.len() && #[trigger] head[j] is Some implies head[j]
                        == head[i] by {
                        assert(head[j] == shown[j]);
                        if j < i {
                            assert(shown[j] is None);
                        }
                    }
                }
            }
        }
    } else {
        lemma_nothing_shown(head);
        assert forall|j: int| 0 <= j < shown.len() && #[trigger] shown[j] is Some implies shown[j] == shown[i] by {}
    }
}

proof fn lemma_nothing_shown(shown: Seq<Option<ValueId>>)
    requires
        forall|j: int| 0 <= j < shown.len() ==> #[trigger] shown[j] is None,
    ensures
        scan(shown) == (Scan { first: None, clash: None }),
    decreases shown.len(),
{
    if shown.len() > 0 {
        assert(shown[shown.len() - 1] is None);
        assert forall|j: int| 0 <= j < shown.drop_last().len() implies #[trigger] shown.drop_last()[j] is None by {
            assert(shown.drop_last()[j] == shown[j]);
        }
        lemma_nothing_shown(shown.drop_last());
    }
}

} // verus!
