use vstd::prelude::*;

verus! {

/// Whether the place `a` comes before the place `b` where places are
/// ordered by the instants they hold, and places of one instant by
/// themselves.
pub open spec fn stamp_before(stamps: Seq<i64>, a: int, b: int) -> bool {
    stamps[a] < stamps[b] || (stamps[a] == stamps[b] && a < b)
}

/// Whether `picks` are places of `stamps`, each before the next, and each
/// before every place that is not picked: the first `picks.len()` places in
/// the order of the instants.
pub open spec fn are_oldest(stamps: Seq<i64>, picks: Seq<int>) -> bool {
    &&& forall|k: int| 0 <= k < picks.len() ==> 0 <= #[trigger] picks[k] < stamps.len()
    &&& forall|j: int, k: int|
        0 <= j < k < picks.len() ==> stamp_before(stamps, #[trigger] picks[j], #[trigger] picks[k])
    &&& forall|i: int, k: int|
        0 <= i < stamps.len() && 0 <= k < picks.len() && !picks.contains(i)
            ==> #[trigger] stamp_before(stamps, picks[k], i)
}

/// The number of places that are marked.
pub open spec fn marked(flags: Seq<bool>) -> nat
    decreases flags.len(),
{
    if flags.len() == 0 {
        0
    } else {
        marked(flags.drop_last()) + if flags.last() {
            1nat
        } else {
            0nat
        }
    }
}

proof fn lemma_marked_bound(flags: Seq<bool>)
    ensures
        marked(flags) <= flags.len(),
        marked(flags) < flags.len() ==> exists|i: int| 0 <= i < flags.len() && !flags[i],
        marked(flags) == 0 <== forall|i: int| 0 <= i < flags.len() ==> !flags[i],
    decreases flags.len(),
{
    if flags.len() > 0 {
        lemma_marked_bound(flags.drop_last());
        if marked(flags) < flags.len() {
            if flags.last() {
                let i = choose|i: int| 0 <= i < flags.drop_last().len() && !flags.drop_last()[i];
                assert(!flags[i]);
            } else {
                assert(!flags[flags.len() - 1]);
            }
        }
        if forall|i: int| 0 <= i < flags.len() ==> !flags[i] {
            assert forall|i: int| 0 <= i < flags.drop_last().len() implies !flags.drop_last()[i] by {
                assert(!flags[i]);
            }
        }
    }
}

proof fn lemma_marked_one_more(flags: Seq<bool>, at: int)
    requires
        0 <= at < flags.len(),
        !flags[at],
    ensures
        marked(flags.update(at, true)) == marked(flags) + 1,
    decreases flags.len(),
{
    let after = flags.update(at, true);
    if at == flags.len() - 1 {
        assert(after.drop_last() =~= flags.drop_last());
    } else {
        lemma_marked_one_more(flags.drop_last(), at);
        assert(after.drop_last() =~= flags.drop_last().update(at, true));
    }
}

/// The places as mathematical integers.
pub open spec fn places_of(picks: Seq<usize>) -> Seq<int> {
    picks.map_values(|place: usize| place as int)
}

/// The `amount` places that hold the earliest instants, earliest first;
/// of two places with one instant the lower comes first.
pub fn oldest(stamps: &Vec<i64>, amount: usize) -> (r: Vec<usize>)
    requires
        amount <= stamps.len(),
    ensures
        r@.len() == amount,
        are_oldest(stamps@, places_of(r@)),
{
    let n: usize = stamps.len();
    let mut taken: Vec<bool> = Vec::with_capacity(n);
    let mut i: usize = 0;
    while i < n
        invariant
            i <= n,
            taken@.len() == i,
            forall|j: int| 0 <= j < i ==> !taken@[j],
        decreases n - i,
    {
        taken.push(false);
        i = i + 1;
    }
    proof {
        lemma_marked_bound(taken@);
    }
    let mut picks: Vec<usize> = Vec::with_capacity(amount);
    while picks.len() < amount
        invariant
            n == stamps.len(),
            taken@.len() == n,
            amount <= n,
            picks@.len() <= amount,
            marked(taken@) == picks@.len(),
            forall|i: int| 0 <= i < n ==> (taken@[i] <==> places_of(picks@).contains(i)),
            forall|k: int| 0 <= k < picks@.len() ==> 0 <= #[trigger] places_of(picks@)[k] < n,
            forall|j: int, k: int|
                0 <= j < k < picks@.len() ==> stamp_before(
                    stamps@,
                    #[trigger] places_of(picks@)[j],
                    #[trigger] places_of(picks@)[k],
                ),
            forall|i: int, k: int|
                0 <= i < n && 0 <= k < picks@.len() && !taken@[i] ==> #[trigger] stamp_before(
                    stamps@,
                    places_of(picks@)[k],
                    i,
                ),
        decreases amount - picks.len(),
    {
        proof {
            lemma_marked_bound(taken@);
        }
        let mut best: usize = 0;
        let mut found: bool = false;
        let mut at: usize = 0;
        while at < n
            invariant
                n == stamps.len(),
                taken@.len() == n,
                at <= n,
                found ==> best < at && !taken@[best as int],
                !found ==> forall|i: int| 0 <= i < at ==> taken@[i],
                found ==> forall|i: int|
                    0 <= i < at && !taken@[i] && i != best ==> stamp_before(
                        stamps@,
                        best as int,
                        i,
                    ),
            decreases n - at,
        {
            if !taken[at] {
                if !found || stamps[at] < stamps[best] {
                    best = at;
                    found = true;
                }
            }
            at = at + 1;
        }
        assert(found);
        proof {
            lemma_marked_one_more(taken@, best as int);
        }
        let ghost before = places_of(picks@);
        let ghost flags = taken@;
        taken.set(best, true);
        picks.push(best);
        proof {
            let after = places_of(picks@);
            assert(after =~= before.push(best as int));
            assert forall|i: int| 0 <= i < n implies (taken@[i] <==> after.contains(i)) by {
                if i == best {
                    assert(after[after.len() - 1] == i);
                } else {
                    if flags[i] {
                        let k = choose|k: int| 0 <= k < before.len() && before[k] == i;
                        assert(after[k] == i);
                    }
                    if after.contains(i) {
                        let k = choose|k: int| 0 <= k < after.len() && after[k] == i;
                        assert(before[k] == i);
                    }
                }
            }
            assert forall|j: int, k: int| 0 <= j < k < after.len() implies stamp_before(
                stamps@,
                #[trigger] after[j],
                #[trigger] after[k],
            ) by {
                assert(after[j] == before[j]);
                if k < before.len() {
                    assert(after[k] == before[k]);
                }
            }
            assert forall|i: int, k: int|
                0 <= i < n && 0 <= k < after.len() && !taken@[i] implies #[trigger] stamp_before(
                stamps@,
                after[k],
                i,
            ) by {
                if k < before.len() {
                    assert(after[k] == before[k]);
                }
            }
        }
    }
    picks
}

/// The first instant from `moment` on that is none of `taken`; the last
/// instant of all where every one up to it is taken.
pub open spec fn first_free(taken: Seq<i64>, moment: i64) -> i64
    decreases i64::MAX - moment,
{
    if moment < i64::MAX && taken.contains(moment) {
        first_free(taken, (moment + 1) as i64)
    } else {
        moment
    }
}

/// The first `count` instants set apart: each one, in its turn, is moved on
/// by as many microseconds as it takes to differ from those before it.
pub open spec fn set_apart(stamps: Seq<i64>, count: int) -> Seq<i64>
    decreases count,
{
    if count <= 0 {
        Seq::empty()
    } else {
        set_apart(stamps, count - 1).push(first_free(set_apart(stamps, count - 1), stamps[count
            - 1]))
    }
}

pub proof fn lemma_set_apart_len(stamps: Seq<i64>, count: int)
    requires
        0 <= count,
    ensures
        set_apart(stamps, count).len() == count,
    decreases count,
{
    if count > 0 {
        lemma_set_apart_len(stamps, count - 1);
    }
}

fn holds(taken: &Vec<i64>, moment: i64) -> (r: bool)
    ensures
        r == taken@.contains(moment),
{
    let mut at: usize = 0;
    while at < taken.len()
        invariant
            at <= taken@.len(),
            forall|j: int| 0 <= j < at ==> taken@[j] != moment,
        decreases taken@.len() - at,
    {
        if taken[at] == moment {
            return true;
        }
        at = at + 1;
    }
    false
}

/// Sets the instants apart.
pub fn set_instants_apart(stamps: &Vec<i64>) -> (r: Vec<i64>)
    ensures
        r@ == set_apart(stamps@, stamps@.len() as int),
{
    let mut result: Vec<i64> = Vec::with_capacity(stamps.len());
    let mut at: usize = 0;
    while at < stamps.len()
        invariant
            at <= stamps@.len(),
            result@ == set_apart(stamps@, at as int),
        decreases stamps@.len() - at,
    {
        let mut moment: i64 = stamps[at];
        while moment < i64::MAX && holds(&result, moment)
            invariant
                first_free(result@, stamps@[at as int]) == first_free(result@, moment),
            decreases i64::MAX - moment,
        {
            moment = moment + 1;
        }
        result.push(moment);
        at = at + 1;
    }
    result
}

} // verus!
