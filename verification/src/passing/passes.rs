//! The passes of one segment: which experts each of them seats.

use vstd::prelude::*;

use crate::experts::plan::pass_seats;
use crate::experts::segment::holds_expert;

verus! {

/// How many experts one pass over a pool of `slots` seats: all of it, or,
/// where the next pass is read ahead into the other half, half of it.
#[must_use]
pub fn pass_group(slots: u32, half: bool) -> (seats: u32)
    ensures
        seats == pass_seats(slots as int, half),
        seats >= 1,
        seats <= slots || seats == 1,
{
    let seats: u32 = if half { slots / 2 } else { slots };
    if seats < 1 {
        1
    } else {
        seats
    }
}

/// The first id of a routing vector that names no expert of its group.
pub open spec fn unknown(ids: Seq<i32>, experts: u32) -> Option<u32>
    decreases ids.len(),
{
    if ids.len() == 0 {
        None
    } else {
        match unknown(ids.drop_last(), experts) {
            Some(expert) => Some(expert),
            None => if ids.last() >= 0 && ids.last() >= experts {
                Some(ids.last() as u32)
            } else {
                None
            },
        }
    }
}

/// The experts a routing vector names, each once, in the order they are
/// first named.
pub open spec fn first_named(ids: Seq<i32>) -> Seq<u32>
    decreases ids.len(),
{
    if ids.len() == 0 {
        Seq::empty()
    } else {
        let head = first_named(ids.drop_last());
        if ids.last() >= 0 && !head.contains(ids.last() as u32) {
            head.push(ids.last() as u32)
        } else {
            head
        }
    }
}

/// Those of `all` who sit, or those who do not, in order.
pub open spec fn sitting(all: Seq<u32>, seat_of: Seq<Option<u32>>, sits: bool) -> Seq<u32>
    decreases all.len(),
{
    if all.len() == 0 {
        Seq::empty()
    } else {
        let head = sitting(all.drop_last(), seat_of, sits);
        if seat_of[all.last() as int] is Some == sits {
            head.push(all.last())
        } else {
            head
        }
    }
}

/// `all` in groups of `n`, the last of what is left.
pub open spec fn chunks(all: Seq<u32>, n: int) -> Seq<Seq<u32>> {
    Seq::new(((all.len() + n - 1) / n) as nat, |k: int| chunk(all, n, k))
}

pub open spec fn chunk(all: Seq<u32>, n: int, k: int) -> Seq<u32> {
    all.subrange(k * n, if (k + 1) * n < all.len() { (k + 1) * n } else { all.len() as int })
}

/// The experts of a routing vector in the order they are seated: whoever
/// sits already first, so that no pass evicts one a later pass reads.
pub open spec fn ordered(ids: Seq<i32>, seat_of: Seq<Option<u32>>) -> Seq<u32> {
    let named = first_named(ids);
    sitting(named, seat_of, true) + sitting(named, seat_of, false)
}

/// A segment being run in passes: its rows, what they named, and the experts
/// of each pass.
#[derive(Debug)]
pub struct Passing {
    pub row_offset: u32,
    pub rows: u32,
    pub ids: Vec<i32>,
    pub groups: Vec<Vec<u32>>,
}

#[verifier::ext_equal]
pub struct PassingView {
    pub row_offset: u32,
    pub rows: u32,
    pub ids: Seq<i32>,
    pub groups: Seq<Seq<u32>>,
}

pub open spec fn parts(groups: Seq<Vec<u32>>) -> Seq<Seq<u32>> {
    Seq::new(groups.len(), |k: int| groups[k]@)
}

impl View for Passing {
    type V = PassingView;

    open spec fn view(&self) -> PassingView {
        PassingView {
            row_offset: self.row_offset,
            rows: self.rows,
            ids: self.ids@,
            groups: parts(self.groups@),
        }
    }
}

impl PassingView {
    /// Every pass seats experts a group of `experts` has, no more of them
    /// than a pool of `slots` takes in one.
    pub open spec fn within(self, experts: u32, slots: nat) -> bool {
        &&& forall|k: int|
            0 <= k < self.groups.len() ==> (#[trigger] self.groups[k]).len() <= pass_seats(
                slots as int,
                false,
            )
        &&& forall|k: int, i: int|
            0 <= k < self.groups.len() && 0 <= i < self.groups[k].len()
                ==> #[trigger] self.groups[k][i] < experts
    }
}

/// Where the `k`th group of `n` ends, if `all` is longer than `k` of them.
proof fn lemma_chunk_ends(len: int, n: int, k: int)
    requires
        n > 0,
        len >= 0,
        k >= 0,
    ensures
        (k + 1) * n == k * n + n,
        k * n >= 0,
        k * n < len <==> k < (len + n - 1) / n,
{
    assert((k + 1) * n == k * n + n && k * n >= 0) by (nonlinear_arith)
        requires
            n > 0,
            k >= 0,
    ;
    let q = (len + n - 1) / n;
    assert(q * n <= len + n - 1 && len + n - 1 < q * n + n) by (nonlinear_arith)
        requires
            n > 0,
            q == (len + n - 1) / n,
    ;
    if k * n < len {
        assert(k < q) by (nonlinear_arith)
            requires
                n > 0,
                k * n < len,
                len + n - 1 < q * n + n,
        ;
    }
    if k < q {
        assert(k * n < len) by (nonlinear_arith)
            requires
                n > 0,
                k < q,
                q * n <= len + n - 1,
        ;
    }
}

/// `all` in groups of `n`.
pub fn chunked(all: &Vec<u32>, n: u32) -> (groups: Vec<Vec<u32>>)
    requires
        n > 0,
    ensures
        parts(groups@) == chunks(all@, n as int),
{
    let len: usize = all.len();
    let mut groups: Vec<Vec<u32>> = Vec::new();
    let mut at: usize = 0;
    let ghost mut k: int = 0;
    proof {
        lemma_chunk_ends(len as int, n as int, 0);
    }
    while at < len
        invariant
            n > 0,
            len == all@.len(),
            k >= 0,
            at <= len,
            at == k * n || at == len && k * n >= len,
            groups@.len() == k,
            k == 0 || k - 1 < (len + n - 1) / (n as int),
            forall|j: int| 0 <= j < k ==> (#[trigger] groups@[j])@ == chunk(all@, n as int, j),
        decreases len - at,
    {
        proof {
            lemma_chunk_ends(len as int, n as int, k);
        }
        let mut part: Vec<u32> = Vec::new();
        let ghost from = at;
        let mut took: u32 = 0;
        while took < n && at < len
            invariant
                n > 0,
                took <= n,
                at <= len,
                len == all@.len(),
                from <= at,
                at == from + took,
                part@ == all@.subrange(from as int, at as int),
            decreases len - at,
        {
            part.push(all[at]);
            at += 1;
            took += 1;
            assert(part@ =~= all@.subrange(from as int, at as int));
        }
        assert(part@ =~= chunk(all@, n as int, k));
        groups.push(part);
        proof {
            k = k + 1;
        }
    }
    proof {
        lemma_chunk_ends(len as int, n as int, k);
        assert(parts(groups@) =~= chunks(all@, n as int));
    }
    groups
}

/// Those of `all` who sit, or those who do not, after `into`.
fn push_sitting(all: &Vec<u32>, seat_of: &Vec<Option<u32>>, sits: bool, into: &mut Vec<u32>)
    requires
        forall|i: int| 0 <= i < all@.len() ==> #[trigger] all@[i] < seat_of@.len(),
    ensures
        final(into)@ == old(into)@ + sitting(all@, seat_of@, sits),
{
    let mut i: usize = 0;
    assert(all@.take(0) =~= Seq::<u32>::empty());
    assert(into@ =~= old(into)@ + sitting(all@.take(0), seat_of@, sits));
    while i < all.len()
        invariant
            i <= all@.len(),
            forall|i: int| 0 <= i < all@.len() ==> #[trigger] all@[i] < seat_of@.len(),
            into@ == old(into)@ + sitting(all@.take(i as int), seat_of@, sits),
        decreases all@.len() - i,
    {
        assert(all@.take(i + 1).drop_last() =~= all@.take(i as int));
        let expert: u32 = all[i];
        assert(all@[i as int] == expert);
        if seat_of[expert as usize].is_some() == sits {
            into.push(expert);
        }
        i += 1;
        assert(into@ =~= old(into)@ + sitting(all@.take(i as int), seat_of@, sits));
    }
    assert(all@.take(all@.len() as int) =~= all@);
}

/// A vector that names an expert its group has not got part of the way
/// names it first.
proof fn lemma_unknown_stops(ids: Seq<i32>, experts: u32, n: int)
    requires
        0 <= n <= ids.len(),
        unknown(ids.take(n), experts) is Some,
    ensures
        unknown(ids, experts) == unknown(ids.take(n), experts),
    decreases ids.len() - n,
{
    if n == ids.len() {
        assert(ids.take(n) =~= ids);
    } else {
        assert(ids.take(n + 1).drop_last() =~= ids.take(n));
        lemma_unknown_stops(ids, experts, n + 1);
    }
}

/// What a routing vector names: nobody twice, and just the ids that are not
/// negative.
pub proof fn lemma_first_named(ids: Seq<i32>, experts: u32)
    ensures
        first_named(ids).no_duplicates(),
        forall|e: u32|
            #[trigger] first_named(ids).contains(e) <==> exists|i: int|
                0 <= i < ids.len() && #[trigger] ids[i] == e,
        unknown(ids, experts) is None <==> forall|i: int|
            0 <= i < ids.len() && #[trigger] ids[i] >= 0 ==> ids[i] < experts,
        unknown(ids, experts) is None ==> forall|i: int|
            0 <= i < first_named(ids).len() ==> #[trigger] first_named(ids)[i] < experts,
        first_named(ids).len() <= ids.len(),
    decreases ids.len(),
{
    if ids.len() > 0 {
        let head = ids.drop_last();
        let id = ids.last();
        lemma_first_named(head, experts);
        let was = first_named(head);
        let now = first_named(ids);
        if id >= 0 && !was.contains(id as u32) {
            crate::experts::seats::lemma_pushed(was, id as u32);
        }
        assert forall|e: u32| #[trigger] now.contains(e) <==> exists|i: int|
            0 <= i < ids.len() && #[trigger] ids[i] == e by {
            if now.contains(e) {
                if was.contains(e) {
                    let i = choose|i: int| 0 <= i < head.len() && #[trigger] head[i] == e;
                    assert(ids[i] == e);
                } else {
                    assert(ids[ids.len() - 1] == e);
                }
            }
            if exists|i: int| 0 <= i < ids.len() && #[trigger] ids[i] == e {
                let i = choose|i: int| 0 <= i < ids.len() && #[trigger] ids[i] == e;
                if i < head.len() {
                    assert(head[i] == e);
                    assert(was.contains(e));
                    let j = was.index_of(e);
                    assert(now[j] == e);
                } else if !was.contains(e) {
                    assert(now[was.len() as int] == e);
                } else {
                    assert(now[was.index_of(e)] == e);
                }
            }
        }
        if unknown(ids, experts) is None {
            assert forall|i: int| 0 <= i < ids.len() && #[trigger] ids[i] >= 0 implies ids[i] < experts by {
                if i < head.len() {
                    assert(head[i] == ids[i]);
                }
            }
            assert forall|i: int| 0 <= i < now.len() implies #[trigger] now[i] < experts by {
                if i < was.len() {
                    assert(now[i] == was[i]);
                }
            }
        } else if unknown(head, experts) is Some {
            let i = choose|i: int| 0 <= i < head.len() && #[trigger] head[i] >= 0 && head[i] >= experts;
            assert(ids[i] == head[i]);
        } else {
            assert(ids[ids.len() - 1] == id);
        }
    }
}

/// The experts a routing vector names, in order; or the first id that names
/// none.
pub fn name_experts(ids: &Vec<i32>, experts: u32) -> (named: Result<Vec<u32>, u32>)
    ensures
        match named {
            Ok(named) => unknown(ids@, experts) is None && named@ == first_named(ids@),
            Err(expert) => unknown(ids@, experts) == Some(expert),
        },
{
    let mut named: Vec<u32> = Vec::new();
    let mut i: usize = 0;
    assert(ids@.take(0) =~= Seq::<i32>::empty());
    while i < ids.len()
        invariant
            i <= ids@.len(),
            unknown(ids@.take(i as int), experts) is None,
            named@ == first_named(ids@.take(i as int)),
        decreases ids@.len() - i,
    {
        assert(ids@.take(i + 1).drop_last() =~= ids@.take(i as int));
        let id: i32 = ids[i];
        i += 1;
        if id < 0 {
            continue ;
        }
        let expert: u32 = id as u32;
        if expert >= experts {
            proof {
                lemma_unknown_stops(ids@, experts, i as int);
            }
            return Err(expert);
        }
        if !holds_expert(&named, expert) {
            named.push(expert);
        }
    }
    assert(ids@.take(ids@.len() as int) =~= ids@);
    Ok(named)
}

/// The experts of each pass over a segment that named `ids`, or the first id
/// that names none.
pub fn group_passes(
    ids: &Vec<i32>,
    experts: u32,
    seat_of: &Vec<Option<u32>>,
    seats: u32,
) -> (groups: Result<Vec<Vec<u32>>, u32>)
    requires
        seat_of@.len() == experts,
        seats > 0,
    ensures
        match groups {
            Ok(groups) => {
                &&& unknown(ids@, experts) is None
                &&& parts(groups@) == chunks(ordered(ids@, seat_of@), seats as int)
            },
            Err(expert) => unknown(ids@, experts) == Some(expert),
        },
{
    let named: Vec<u32> = match name_experts(ids, experts) {
        Ok(named) => named,
        Err(expert) => {
            return Err(expert);
        },
    };
    proof {
        lemma_first_named(ids@, experts);
    }
    let mut order: Vec<u32> = Vec::new();
    push_sitting(&named, seat_of, true, &mut order);
    push_sitting(&named, seat_of, false, &mut order);
    assert(order@ =~= ordered(ids@, seat_of@));
    Ok(chunked(&order, seats))
}

/// Those who sit, and those who do not: each of `all` once, in one of the
/// two.
pub proof fn lemma_sitting(all: Seq<u32>, seat_of: Seq<Option<u32>>, sits: bool)
    requires
        all.no_duplicates(),
    ensures
        sitting(all, seat_of, sits).no_duplicates(),
        forall|e: u32|
            #[trigger] sitting(all, seat_of, sits).contains(e) <==> all.contains(e) && seat_of[e as int] is Some
                == sits,
    decreases all.len(),
{
    if all.len() > 0 {
        let head = all.drop_last();
        let e = all.last();
        assert(head.no_duplicates());
        lemma_sitting(head, seat_of, sits);
        let was = sitting(head, seat_of, sits);
        let now = sitting(all, seat_of, sits);
        assert(!head.contains(e)) by {
            if head.contains(e) {
                let i = head.index_of(e);
                assert(all[i] == e && all[all.len() - 1] == e);
            }
        }
        if seat_of[e as int] is Some == sits {
            assert(!was.contains(e));
            crate::experts::seats::lemma_pushed(was, e);
        }
        assert forall|x: u32| #[trigger] now.contains(x) <==> all.contains(x) && seat_of[x as int] is Some
            == sits by {
            if all.contains(x) {
                let i = all.index_of(x);
                if i < head.len() {
                    assert(head[i] == x);
                    assert(head.contains(x));
                }
            }
            if head.contains(x) {
                assert(all[head.index_of(x)] == x);
            }
            if was.contains(x) {
                assert(now[was.index_of(x)] == x);
            }
            if x == e && seat_of[e as int] is Some == sits {
                assert(now[was.len() as int] == e);
                assert(all[all.len() - 1] == e);
            }
            if now.contains(x) && !was.contains(x) {
                let j = now.index_of(x);
                assert(j == was.len());
            }
        }
    }
}

/// The order experts are seated in: everyone the vector names, once, whoever
/// sits already before whoever does not.
pub proof fn lemma_ordered(ids: Seq<i32>, experts: u32, seat_of: Seq<Option<u32>>)
    ensures
        ordered(ids, seat_of).no_duplicates(),
        forall|e: u32|
            #[trigger] ordered(ids, seat_of).contains(e) <==> exists|i: int|
                0 <= i < ids.len() && #[trigger] ids[i] == e,
        unknown(ids, experts) is None ==> forall|i: int|
            0 <= i < ordered(ids, seat_of).len() ==> #[trigger] ordered(ids, seat_of)[i] < experts,
        forall|i: int, j: int|
            0 <= i < j < ordered(ids, seat_of).len() && seat_of[#[trigger] ordered(ids, seat_of)[j] as int] is Some
                ==> seat_of[#[trigger] ordered(ids, seat_of)[i] as int] is Some,
{
    let named = first_named(ids);
    lemma_first_named(ids, experts);
    lemma_sitting(named, seat_of, true);
    lemma_sitting(named, seat_of, false);
    let a = sitting(named, seat_of, true);
    let b = sitting(named, seat_of, false);
    let all = ordered(ids, seat_of);
    assert forall|i: int| 0 <= i < all.len() implies #[trigger] all[i] == if i < a.len() {
        a[i]
    } else {
        b[i - a.len()]
    } by {}
    assert forall|i: int| 0 <= i < a.len() implies seat_of[#[trigger] a[i] as int] is Some && named.contains(a[i]) by {
        assert(a.contains(a[i]));
    }
    assert forall|i: int| 0 <= i < b.len() implies seat_of[#[trigger] b[i] as int] is None && named.contains(b[i]) by {
        assert(b.contains(b[i]));
    }
    assert forall|i: int, j: int| 0 <= i < all.len() && 0 <= j < all.len() && i != j implies all[i] != all[j] by {
        assert(all[i] == if i < a.len() { a[i] } else { b[i - a.len()] });
        assert(all[j] == if j < a.len() { a[j] } else { b[j - a.len()] });
    }
    assert forall|e: u32| #[trigger] all.contains(e) <==> named.contains(e) by {
        if all.contains(e) {
            let i = all.index_of(e);
            assert(all[i] == if i < a.len() { a[i] } else { b[i - a.len()] });
        }
        if named.contains(e) {
            if seat_of[e as int] is Some {
                assert(a.contains(e));
                assert(all[a.index_of(e)] == e);
            } else {
                assert(b.contains(e));
                assert(all[a.len() + b.index_of(e)] == e);
            }
        }
    }
    if unknown(ids, experts) is None {
        assert forall|i: int| 0 <= i < all.len() implies #[trigger] all[i] < experts by {
            assert(all.contains(all[i]));
            assert(named.contains(all[i]));
            assert(named[named.index_of(all[i])] < experts);
        }
    }
    assert forall|i: int, j: int|
        0 <= i < j < all.len() && seat_of[#[trigger] all[j] as int] is Some implies seat_of[#[trigger] all[i] as int] is Some by {
        assert(all[j] == if j < a.len() { a[j] } else { b[j - a.len()] });
        assert(all[i] == if i < a.len() { a[i] } else { b[i - a.len()] });
    }
}

/// Groups of `n` hold everyone once.
pub proof fn lemma_chunks(all: Seq<u32>, n: int)
    requires
        all.no_duplicates(),
        n > 0,
    ensures
        forall|k: int|
            0 <= k < chunks(all, n).len() ==> 0 < (#[trigger] chunks(all, n)[k]).len() <= n && chunks(
                all,
                n,
            )[k].no_duplicates(),
        forall|k: int, i: int|
            0 <= k < chunks(all, n).len() && 0 <= i < chunks(all, n)[k].len() ==> {
                &&& 0 <= k * n + i < all.len()
                &&& #[trigger] chunks(all, n)[k][i] == all[k * n + i]
            },
        forall|e: u32|
            #[trigger] all.contains(e) <==> exists|k: int|
                0 <= k < chunks(all, n).len() && #[trigger] chunks(all, n)[k].contains(e),
        forall|k: int, l: int, e: u32|
            0 <= k < chunks(all, n).len() && 0 <= l < chunks(all, n).len() && #[trigger] chunks(
                all,
                n,
            )[k].contains(e) && #[trigger] chunks(all, n)[l].contains(e) ==> k == l,
{
    let parts = chunks(all, n);
    let len = all.len() as int;
    assert forall|k: int| 0 <= k < parts.len() implies {
        &&& 0 < (#[trigger] parts[k]).len() <= n
        &&& k * n + parts[k].len() <= len
        &&& k * n >= 0
    } by {
        lemma_chunk_ends(len, n, k);
    }
    assert forall|k: int, i: int| 0 <= k < parts.len() && 0 <= i < parts[k].len() implies {
        &&& 0 <= k * n + i < all.len()
        &&& #[trigger] parts[k][i] == all[k * n + i]
    } by {
        assert(0 < parts[k].len());
        lemma_chunk_ends(len, n, k);
        assert(parts[k] == chunk(all, n, k));
        assert(all[k * n + i] == chunk(all, n, k)[i]);
    }
    assert forall|k: int| 0 <= k < parts.len() implies (#[trigger] parts[k]).no_duplicates() by {
        assert forall|i: int, j: int| 0 <= i < parts[k].len() && 0 <= j < parts[k].len() && i != j implies parts[k][i]
            != parts[k][j] by {
            assert(parts[k][i] == all[k * n + i] && parts[k][j] == all[k * n + j]);
        }
    }
    assert forall|e: u32| #[trigger] all.contains(e) <==> exists|k: int|
        0 <= k < parts.len() && #[trigger] parts[k].contains(e) by {
        if all.contains(e) {
            let i = all.index_of(e);
            let k = i / n;
            lemma_chunk_ends(len, n, k);
            assert(k * n <= i < k * n + n && k >= 0) by (nonlinear_arith)
                requires
                    n > 0,
                    i >= 0,
                    k == i / n,
            ;
            assert(parts[k][i - k * n] == e);
            assert(parts[k].contains(e));
        }
        if exists|k: int| 0 <= k < parts.len() && #[trigger] parts[k].contains(e) {
            let k = choose|k: int| 0 <= k < parts.len() && #[trigger] parts[k].contains(e);
            let i = parts[k].index_of(e);
            assert(parts[k][i] == all[k * n + i]);
        }
    }
    assert forall|k: int, l: int, e: u32|
        0 <= k < parts.len() && 0 <= l < parts.len() && #[trigger] parts[k].contains(e) && #[trigger] parts[l].contains(e) implies k == l by {
        let i = parts[k].index_of(e);
        let j = parts[l].index_of(e);
        assert(parts[k][i] == all[k * n + i] && parts[l][j] == all[l * n + j]);
        assert(k * n + i == l * n + j);
        assert(0 <= i < n && 0 <= j < n);
        assert(k == l) by (nonlinear_arith)
            requires
                n > 0,
                k * n + i == l * n + j,
                0 <= i < n,
                0 <= j < n,
        ;
    }
}

} // verus!
