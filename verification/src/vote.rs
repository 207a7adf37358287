use vstd::prelude::*;

verus! {

/// Number of positions of `s` that hold the value `v`.
pub open spec fn count_eq(s: Seq<u8>, v: u8) -> nat
    decreases s.len(),
{
    if s.len() == 0 {
        0
    } else {
        count_eq(s.drop_last(), v) + (if s.last() == v {
            1nat
        } else {
            0nat
        })
    }
}

/// `v` wins the vote over `s`: it occurs, and strictly more often than
/// every other value.
pub open spec fn is_plurality(s: Seq<u8>, v: u8) -> bool {
    &&& s.contains(v)
    &&& forall|w: u8| w != v ==> count_eq(s, w) < count_eq(s, v)
}

/// Some value wins the vote over `s`.
pub open spec fn has_plurality(s: Seq<u8>) -> bool {
    exists|v: u8| is_plurality(s, v)
}

/// The winning value, where one exists.
pub open spec fn plurality_of(s: Seq<u8>) -> u8 {
    choose|v: u8| is_plurality(s, v)
}

proof fn lemma_count_take_step(s: Seq<u8>, v: u8, j: int)
    requires
        0 <= j < s.len(),
    ensures
        count_eq(s.take(j + 1), v) == count_eq(s.take(j), v) + (if s[j] == v {
            1nat
        } else {
            0nat
        }),
{
    assert(s.take(j + 1).drop_last() =~= s.take(j));
    assert(s.take(j + 1).last() == s[j]);
}

proof fn lemma_count_full(s: Seq<u8>, v: u8)
    ensures
        count_eq(s.take(s.len() as int), v) == count_eq(s, v),
{
    assert(s.take(s.len() as int) =~= s);
}

/// A value occurs in `s` exactly when its count is positive.
proof fn lemma_count_pos(s: Seq<u8>, v: u8)
    ensures
        s.contains(v) <==> count_eq(s, v) > 0,
    decreases s.len(),
{
    if s.len() > 0 {
        lemma_count_pos(s.drop_last(), v);
        if s.contains(v) && s.last() != v {
            let i = choose|i: int| 0 <= i < s.len() && s[i] == v;
            assert(s.drop_last()[i] == v);
        }
        if s.drop_last().contains(v) {
            let i = choose|i: int| 0 <= i < s.len() - 1 && s.drop_last()[i] == v;
            assert(s[i] == v);
        }
    }
}

/// Two distinct values cannot each fill more than half of `s`.
proof fn lemma_count_pair_bound(s: Seq<u8>, v: u8, w: u8)
    requires
        v != w,
    ensures
        count_eq(s, v) + count_eq(s, w) <= s.len(),
    decreases s.len(),
{
    if s.len() > 0 {
        lemma_count_pair_bound(s.drop_last(), v, w);
    }
}

/// At most one value wins a vote.
proof fn lemma_plurality_unique(s: Seq<u8>, v: u8, w: u8)
    requires
        is_plurality(s, v),
        is_plurality(s, w),
    ensures
        v == w,
{
    if v != w {
        assert(count_eq(s, w) < count_eq(s, v));
        assert(count_eq(s, v) < count_eq(s, w));
    }
}

/// Majority-vote correctness: a value held by more than half of the
/// positions wins the vote, no matter how the remaining positions
/// disagree.
pub proof fn lemma_majority_wins(s: Seq<u8>, v: u8)
    requires
        2 * count_eq(s, v) > s.len(),
    ensures
        is_plurality(s, v),
        plurality_of(s) == v,
{
    lemma_count_pos(s, v);
    assert forall|w: u8| w != v implies count_eq(s, w) < count_eq(s, v) by {
        lemma_count_pair_bound(s, v, w);
    }
    assert(is_plurality(s, v));
    assert(has_plurality(s));
    lemma_plurality_unique(s, plurality_of(s), v);
}

proof fn lemma_count_all(s: Seq<u8>, v: u8)
    requires
        forall|i: int| 0 <= i < s.len() ==> s[i] == v,
    ensures
        count_eq(s, v) == s.len(),
    decreases s.len(),
{
    if s.len() > 0 {
        lemma_count_all(s.drop_last(), v);
    }
}

/// A unanimous, non-empty vote is won by the one value present.
pub proof fn lemma_unanimous_wins(s: Seq<u8>, v: u8)
    requires
        s.len() > 0,
        forall|i: int| 0 <= i < s.len() ==> s[i] == v,
    ensures
        is_plurality(s, v),
        plurality_of(s) == v,
{
    lemma_count_all(s, v);
    lemma_majority_wins(s, v);
}

proof fn lemma_count_update(s: Seq<u8>, j: int, w: u8, v: u8)
    requires
        0 <= j < s.len(),
    ensures
        count_eq(s.update(j, w), v) == count_eq(s, v) - (if s[j] == v {
            1int
        } else {
            0int
        }) + (if w == v {
            1int
        } else {
            0int
        }),
    decreases s.len(),
{
    if j == s.len() - 1 {
        assert(s.update(j, w).drop_last() =~= s.drop_last());
    } else {
        assert(s.update(j, w).drop_last() =~= s.drop_last().update(j, w));
        lemma_count_update(s.drop_last(), j, w, v);
    }
}

/// Exchanging two positions of a voting column changes no outcome:
/// every value keeps its count, so the winner — or the absence of one —
/// is the same. Any reordering of the column is a chain of such
/// exchanges.
pub proof fn lemma_swap_preserves_vote(s: Seq<u8>, j1: int, j2: int)
    requires
        0 <= j1 < s.len(),
        0 <= j2 < s.len(),
    ensures
        ({
            let s2 = s.update(j1, s[j2]).update(j2, s[j1]);
            &&& forall|v: u8| count_eq(s2, v) == count_eq(s, v)
            &&& forall|v: u8| is_plurality(s2, v) == is_plurality(s, v)
            &&& has_plurality(s2) == has_plurality(s)
            &&& has_plurality(s) ==> plurality_of(s2) == plurality_of(s)
        }),
{
    let s2 = s.update(j1, s[j2]).update(j2, s[j1]);
    assert forall|v: u8| count_eq(s2, v) == count_eq(s, v) by {
        lemma_count_update(s, j1, s[j2], v);
        lemma_count_update(s.update(j1, s[j2]), j2, s[j1], v);
    }
    assert forall|v: u8| is_plurality(s2, v) == is_plurality(s, v) by {
        lemma_count_pos(s, v);
        lemma_count_pos(s2, v);
        if is_plurality(s, v) {
            assert forall|w: u8| w != v implies count_eq(s2, w) < count_eq(s2, v) by {
                assert(count_eq(s, w) < count_eq(s, v));
            }
        }
        if is_plurality(s2, v) {
            assert forall|w: u8| w != v implies count_eq(s, w) < count_eq(s, v) by {
                assert(count_eq(s2, w) < count_eq(s2, v));
            }
        }
    }
    if has_plurality(s) {
        let v = plurality_of(s);
        assert(is_plurality(s, v));
        assert(is_plurality(s2, v));
        assert(has_plurality(s2));
        lemma_plurality_unique(s2, plurality_of(s2), v);
    }
    if has_plurality(s2) {
        let v = plurality_of(s2);
        assert(is_plurality(s2, v));
        assert(is_plurality(s, v));
        assert(has_plurality(s));
    }
}

/// Occurrences of `v` among the elements of `col`.
fn count_val(col: &Vec<u8>, v: u8) -> (c: usize)
    ensures
        c == count_eq(col@, v),
{
    let mut c: usize = 0;
    let mut i: usize = 0;
    while i < col.len()
        invariant
            i <= col@.len(),
            c <= i,
            c == count_eq(col@.take(i as int), v),
        decreases col@.len() - i,
    {
        proof {
            lemma_count_take_step(col@, v, i as int);
        }
        if col[i] == v {
            c = c + 1;
        }
        i = i + 1;
    }
    proof {
        lemma_count_full(col@, v);
    }
    c
}

/// Per-position majority vote: returns the value that is strictly most
/// frequent in `col`, or `None` when no value is (a tie, or an empty
/// column).
pub fn vote_column(col: &Vec<u8>) -> (r: Option<u8>)
    ensures
        r is Some <==> has_plurality(col@),
        r matches Some(v) ==> is_plurality(col@, v) && v == plurality_of(col@),
{
    let n = col.len();
    if n == 0 {
        proof {
            assert forall|v: u8| !is_plurality(col@, v) by {
                lemma_count_pos(col@, v);
            }
        }
        return None;
    }
    let mut best_val: u8 = col[0];
    let mut best_cnt: usize = count_val(col, best_val);
    let mut j: usize = 1;
    proof {
        assert(col@[0] == best_val);
    }
    while j < n
        invariant
            1 <= j <= n,
            n == col@.len(),
            col@.contains(best_val),
            best_cnt == count_eq(col@, best_val),
            forall|k: int| 0 <= k < j ==> count_eq(col@, col@[k]) <= best_cnt,
        decreases n - j,
    {
        let c = count_val(col, col[j]);
        if c > best_cnt {
            best_val = col[j];
            best_cnt = c;
            proof {
                assert(col@[j as int] == best_val);
            }
        }
        j = j + 1;
    }
    let mut tie = false;
    j = 0;
    while j < n
        invariant
            j <= n,
            n == col@.len(),
            col@.contains(best_val),
            best_cnt == count_eq(col@, best_val),
            forall|k: int| 0 <= k < n ==> count_eq(col@, col@[k]) <= best_cnt,
            !tie ==> forall|k: int|
                0 <= k < j ==> col@[k] == best_val || count_eq(col@, col@[k]) < best_cnt,
            tie ==> exists|w: u8|
                w != best_val && col@.contains(w) && count_eq(col@, w) == best_cnt,
        decreases n - j,
    {
        if col[j] != best_val {
            let c = count_val(col, col[j]);
            if c == best_cnt {
                proof {
                    assert(col@[j as int] != best_val && col@.contains(col@[j as int])
                        && count_eq(col@, col@[j as int]) == best_cnt);
                }
                tie = true;
            }
        }
        j = j + 1;
    }
    if tie {
        proof {
            let w = choose|w: u8|
                w != best_val && col@.contains(w) && count_eq(col@, w) == best_cnt;
            assert forall|u: u8| !is_plurality(col@, u) by {
                if is_plurality(col@, u) {
                    let k = choose|k: int| 0 <= k < col@.len() && col@[k] == u;
                    assert(count_eq(col@, u) <= best_cnt);
                    if u == best_val {
                        assert(count_eq(col@, w) < count_eq(col@, u));
                    } else {
                        assert(count_eq(col@, best_val) < count_eq(col@, u));
                    }
                }
            }
        }
        None
    } else {
        proof {
            lemma_count_pos(col@, best_val);
            assert forall|w: u8| w != best_val implies count_eq(col@, w) < count_eq(
                col@,
                best_val,
            ) by {
                lemma_count_pos(col@, w);
                if col@.contains(w) {
                    let k = choose|k: int| 0 <= k < col@.len() && col@[k] == w;
                    assert(col@[k] == best_val || count_eq(col@, col@[k]) < best_cnt);
                }
            }
            assert(is_plurality(col@, best_val));
            assert(has_plurality(col@));
            lemma_plurality_unique(col@, plurality_of(col@), best_val);
        }
        Some(best_val)
    }
}

} // verus!
