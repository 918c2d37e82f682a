use vstd::prelude::*;

use crate::token::BfToken;

verus! {

// ---------------------------------------------------------------------------
// Loop-nesting depth of token sequences
// ---------------------------------------------------------------------------

/// The contribution of one token to the loop-nesting depth.
pub open spec fn nesting_delta(t: BfToken) -> int {
    match t {
        BfToken::LoopStart(_) => 1,
        BfToken::LoopEnd(_) => -1,
        _ => 0,
    }
}

/// The loop-nesting depth in front of position `i`: the number of loop
/// starts minus the number of loop ends among the first `i` tokens.
pub open spec fn depth(toks: Seq<BfToken>, i: int) -> int
    decreases i,
{
    if i <= 0 {
        0
    } else {
        depth(toks, i - 1) + nesting_delta(toks[i - 1])
    }
}

/// Positions `a` and `b` hold a loop start and the loop end that closes it:
/// the nesting depth first returns to its level in front of `a` right after
/// `b`.
pub open spec fn matched_pair(toks: Seq<BfToken>, a: int, b: int) -> bool {
    &&& 0 <= a < b < toks.len()
    &&& toks[a] is LoopStart
    &&& toks[b] is LoopEnd
    &&& depth(toks, b) == depth(toks, a) + 1
    &&& forall|k: int| a < k <= b ==> #[trigger] depth(toks, k) > depth(toks, a)
}

/// The loop end at `u` closes nothing, and it is the first such one: every
/// loop start in front of it is closed again in front of it, and no earlier
/// loop end is in that situation.
pub open spec fn unmatched_close_from(toks: Seq<BfToken>, i: int, u: int) -> bool {
    &&& i <= u < toks.len()
    &&& toks[u] is LoopEnd
    &&& depth(toks, u) == 0
    &&& forall|k: int| i <= k < u ==> !(toks[k] is LoopEnd && #[trigger] depth(toks, k) == 0)
}

/// The first loop end of the whole sequence that closes nothing.
pub open spec fn unmatched_close_at(toks: Seq<BfToken>, u: int) -> bool {
    unmatched_close_from(toks, 0, u)
}

/// The loop start at `a` never closes: the nesting depth stays above its
/// level in front of `a` for the whole rest of the sequence.
pub open spec fn unmatched_open_at(toks: Seq<BfToken>, a: int) -> bool {
    &&& 0 <= a < toks.len()
    &&& toks[a] is LoopStart
    &&& forall|k: int| a < k <= toks.len() ==> #[trigger] depth(toks, k) > depth(toks, a)
}

/// Every loop end closes a loop start, and every loop start is closed.
pub open spec fn balanced(toks: Seq<BfToken>) -> bool {
    &&& forall|k: int| 0 <= k <= toks.len() ==> #[trigger] depth(toks, k) >= 0
    &&& depth(toks, toks.len() as int) == 0
}

// ---------------------------------------------------------------------------
// The resolution scan
// ---------------------------------------------------------------------------

/// The resolution scan from position `i` on, with the positions of the loop
/// starts that are still open on `stack`, innermost last.  A loop end with
/// an empty stack, or a loop start left on the stack at the end, is an
/// error carrying the offending position; otherwise every loop token is
/// rewritten to carry its partner's position.
pub open spec fn resolve_from(toks: Seq<BfToken>, i: int, stack: Seq<int>) -> Result<
    Seq<BfToken>,
    int,
>
    decreases toks.len() - i,
{
    if i < 0 || i >= toks.len() {
        if stack.len() == 0 {
            Ok(toks)
        } else {
            Err(stack.last())
        }
    } else {
        match toks[i] {
            BfToken::LoopStart(_) => resolve_from(toks, i + 1, stack.push(i)),
            BfToken::LoopEnd(_) => {
                if stack.len() == 0 {
                    Err(i)
                } else {
                    let a = stack.last();
                    let rewritten = if 0 <= a < toks.len() {
                        toks.update(a, BfToken::LoopStart(#[verifier::truncate] (i as usize))).update(
                            i,
                            BfToken::LoopEnd(#[verifier::truncate] (a as usize)),
                        )
                    } else {
                        toks
                    };
                    resolve_from(rewritten, i + 1, stack.drop_last())
                }
            },
            _ => resolve_from(toks, i + 1, stack),
        }
    }
}

/// The whole resolution scan over a token sequence.
pub open spec fn spec_resolve(toks: Seq<BfToken>) -> Result<Seq<BfToken>, int> {
    resolve_from(toks, 0, Seq::empty())
}

// ---------------------------------------------------------------------------
// Basic facts about depth and matched pairs
// ---------------------------------------------------------------------------

/// Updating a token without changing its depth contribution changes no
/// depth.
proof fn lemma_depth_update(toks: Seq<BfToken>, j: int, t: BfToken, k: int)
    requires
        0 <= j < toks.len(),
        k <= toks.len(),
        nesting_delta(t) == nesting_delta(toks[j]),
    ensures
        depth(toks.update(j, t), k) == depth(toks, k),
    decreases k,
{
    if k > 0 {
        lemma_depth_update(toks, j, t, k - 1);
    }
}

/// A loop start has exactly one loop end that closes it.
proof fn lemma_match_unique_end(toks: Seq<BfToken>, a: int, b1: int, b2: int)
    requires
        matched_pair(toks, a, b1),
        matched_pair(toks, a, b2),
    ensures
        b1 == b2,
{
    if b1 < b2 {
        assert(depth(toks, b1 + 1) == depth(toks, a));
        assert(depth(toks, b1 + 1) > depth(toks, a));
    }
    if b2 < b1 {
        assert(depth(toks, b2 + 1) == depth(toks, a));
        assert(depth(toks, b2 + 1) > depth(toks, a));
    }
}

/// Right after the loop end that closes `a`, the depth is back to its level
/// in front of `a`.
proof fn lemma_matched_pair_after(toks: Seq<BfToken>, a: int, b: int)
    requires
        matched_pair(toks, a, b),
    ensures
        depth(toks, b + 1) == depth(toks, a),
{
    assert(depth(toks, b + 1) == depth(toks, b) + nesting_delta(toks[b]));
}

/// A loop end closes exactly one loop start.
proof fn lemma_match_unique_start(toks: Seq<BfToken>, a1: int, a2: int, b: int)
    requires
        matched_pair(toks, a1, b),
        matched_pair(toks, a2, b),
    ensures
        a1 == a2,
{
    if a1 < a2 {
        assert(depth(toks, a2) > depth(toks, a1));
    }
    if a2 < a1 {
        assert(depth(toks, a1) > depth(toks, a2));
    }
}

// ---------------------------------------------------------------------------
// The scan invariant and preservation of the rewriting step
// ---------------------------------------------------------------------------

/// No loop end from position `i` on is left without a loop start to close.
pub open spec fn closes_covered_from(toks: Seq<BfToken>, i: int) -> bool {
    forall|k: int| i <= k < toks.len() && toks[k] is LoopEnd ==> #[trigger] depth(toks, k) >= 1
}

/// What holds of the scan's state when it reaches position `i`: the stack
/// holds, innermost last, exactly the loop starts still open, every loop end
/// so far closed one of them, and every pair closed so far is rewritten.
pub open spec fn scan_inv(toks: Seq<BfToken>, i: int, stack: Seq<int>) -> bool {
    &&& 0 <= i <= toks.len()
    &&& stack.len() == depth(toks, i)
    &&& forall|k: int| 0 <= k <= i ==> #[trigger] depth(toks, k) >= 0
    &&& forall|k: int| 0 <= k < i && toks[k] is LoopEnd ==> #[trigger] depth(toks, k) >= 1
    &&& forall|d: int| 0 <= d < stack.len() ==> 0 <= #[trigger] stack[d] < i
    &&& forall|d: int| 0 <= d < stack.len() ==> toks[#[trigger] stack[d]] is LoopStart
    &&& forall|d: int| 0 <= d < stack.len() ==> depth(toks, #[trigger] stack[d]) == d
    &&& forall|d: int, k: int|
        0 <= d < stack.len() && #[trigger] stack[d] < k <= i ==> #[trigger] depth(toks, k) > d
    &&& forall|a: int, b: int|
        #[trigger] matched_pair(toks, a, b) && b < i ==> toks[a] == BfToken::LoopStart(
            #[verifier::truncate] (b as usize),
        ) && toks[b] == BfToken::LoopEnd(#[verifier::truncate] (a as usize))
    &&& forall|k: int|
        0 <= k < i && #[trigger] toks[k] is LoopStart && !stack.contains(k) ==> exists|b: int|
            b < i && #[trigger] matched_pair(toks, k, b)
}

/// Rewriting the two halves of a closed pair to carry each other's position
/// changes no token kind, no depth, no matched pair, and no other position.
proof fn lemma_rewrite_preserves(toks: Seq<BfToken>, a: int, b: int)
    requires
        0 <= a < b < toks.len(),
        toks[a] is LoopStart,
        toks[b] is LoopEnd,
    ensures
        ({
            let r = toks.update(a, BfToken::LoopStart(#[verifier::truncate] (b as usize))).update(
                b,
                BfToken::LoopEnd(#[verifier::truncate] (a as usize)),
            );
            &&& r.len() == toks.len()
            &&& forall|k: int| 0 <= k < toks.len() && k != a && k != b ==> r[k] == toks[k]
            &&& forall|k: int|
                0 <= k < toks.len() ==> nesting_delta(#[trigger] r[k]) == nesting_delta(toks[k])
            &&& forall|k: int|
                0 <= k < toks.len() ==> ((#[trigger] r[k] is LoopStart) <==> (
                toks[k] is LoopStart))
            &&& forall|k: int|
                0 <= k < toks.len() ==> ((#[trigger] r[k] is LoopEnd) <==> (toks[k] is LoopEnd))
            &&& forall|k: int| 0 <= k <= toks.len() ==> #[trigger] depth(r, k) == depth(toks, k)
            &&& forall|x: int, y: int|
                #[trigger] matched_pair(r, x, y) <==> matched_pair(toks, x, y)
            &&& forall|x: int| #[trigger] unmatched_open_at(r, x) <==> unmatched_open_at(toks, x)
            &&& forall|j: int, u: int|
                0 <= j ==> (#[trigger] unmatched_close_from(r, j, u) <==> unmatched_close_from(
                    toks,
                    j,
                    u,
                ))
            &&& forall|j: int|
                0 <= j ==> (#[trigger] closes_covered_from(r, j) <==> closes_covered_from(toks, j))
        }),
{
    let mid = toks.update(a, BfToken::LoopStart(#[verifier::truncate] (b as usize)));
    let r = mid.update(b, BfToken::LoopEnd(#[verifier::truncate] (a as usize)));
    assert forall|k: int| 0 <= k <= toks.len() implies #[trigger] depth(r, k) == depth(toks, k) by {
        lemma_depth_update(toks, a, BfToken::LoopStart(#[verifier::truncate] (b as usize)), k);
        lemma_depth_update(mid, b, BfToken::LoopEnd(#[verifier::truncate] (a as usize)), k);
    }
    assert forall|x: int, y: int| #[trigger] matched_pair(r, x, y) <==> matched_pair(
        toks,
        x,
        y,
    ) by {
        if matched_pair(r, x, y) {
            assert forall|k: int| x < k <= y implies #[trigger] depth(toks, k) > depth(
                toks,
                x,
            ) by {
                assert(depth(r, k) > depth(r, x));
            }
            assert(matched_pair(toks, x, y));
        }
        if matched_pair(toks, x, y) {
            assert forall|k: int| x < k <= y implies #[trigger] depth(r, k) > depth(r, x) by {
                assert(depth(toks, k) > depth(toks, x));
            }
            assert(matched_pair(r, x, y));
        }
    }
    assert forall|x: int| #[trigger] unmatched_open_at(r, x) <==> unmatched_open_at(toks, x) by {
        if unmatched_open_at(r, x) {
            assert forall|k: int| x < k <= toks.len() implies #[trigger] depth(toks, k) > depth(
                toks,
                x,
            ) by {
                assert(depth(r, k) > depth(r, x));
            }
            assert(unmatched_open_at(toks, x));
        }
        if unmatched_open_at(toks, x) {
            assert forall|k: int| x < k <= r.len() implies #[trigger] depth(r, k) > depth(r, x) by {
                assert(depth(toks, k) > depth(toks, x));
            }
            assert(unmatched_open_at(r, x));
        }
    }
    assert forall|j: int, u: int| 0 <= j implies (#[trigger] unmatched_close_from(r, j, u)
        <==> unmatched_close_from(toks, j, u)) by {
        if unmatched_close_from(r, j, u) {
            assert forall|k: int| j <= k < u implies !(toks[k] is LoopEnd && #[trigger] depth(
                toks,
                k,
            ) == 0) by {
                assert(!(r[k] is LoopEnd && depth(r, k) == 0));
            }
            assert(unmatched_close_from(toks, j, u));
        }
        if unmatched_close_from(toks, j, u) {
            assert forall|k: int| j <= k < u implies !(r[k] is LoopEnd && #[trigger] depth(r, k)
                == 0) by {
                assert(!(toks[k] is LoopEnd && depth(toks, k) == 0));
            }
            assert(unmatched_close_from(r, j, u));
        }
    }
    assert forall|j: int| 0 <= j implies (#[trigger] closes_covered_from(r, j)
        <==> closes_covered_from(toks, j)) by {
        if closes_covered_from(r, j) {
            assert forall|k: int|
                j <= k < toks.len() && toks[k] is LoopEnd implies #[trigger] depth(toks, k)
                >= 1 by {
                assert(r[k] is LoopEnd);
                assert(depth(r, k) >= 1);
            }
        }
        if closes_covered_from(toks, j) {
            assert forall|k: int| j <= k < r.len() && r[k] is LoopEnd implies #[trigger] depth(r, k)
                >= 1 by {
                assert(toks[k] is LoopEnd);
                assert(depth(toks, k) >= 1);
            }
        }
    }
}

// ---------------------------------------------------------------------------
// The master lemma: what the scan returns, in terms of the depth structure
// ---------------------------------------------------------------------------

/// From any state satisfying the scan invariant, the scan's outcome follows
/// the depth structure of the sequence: the first loop end that closes
/// nothing wins, then the innermost loop start that never closes, and
/// otherwise every matched pair comes out rewritten with its partner's
/// position.
proof fn lemma_scan(toks: Seq<BfToken>, i: int, stack: Seq<int>)
    requires
        scan_inv(toks, i, stack),
    ensures
        forall|u: int|
            #[trigger] unmatched_close_from(toks, i, u) ==> resolve_from(toks, i, stack) == Err::<
                Seq<BfToken>,
                int,
            >(u),
        closes_covered_from(toks, i) && depth(toks, toks.len() as int) == 0 ==> ({
            let r = resolve_from(toks, i, stack);
            &&& r is Ok
            &&& r->Ok_0.len() == toks.len()
            &&& forall|j: int|
                0 <= j < toks.len() && !(toks[j] is LoopStart) && !(toks[j] is LoopEnd)
                    ==> r->Ok_0[j] == #[trigger] toks[j]
            &&& forall|a: int, b: int|
                #[trigger] matched_pair(toks, a, b) ==> r->Ok_0[a] == BfToken::LoopStart(
                    #[verifier::truncate] (b as usize),
                ) && r->Ok_0[b] == BfToken::LoopEnd(#[verifier::truncate] (a as usize))
        }),
        closes_covered_from(toks, i) && depth(toks, toks.len() as int) > 0 ==> ({
            let r = resolve_from(toks, i, stack);
            &&& r is Err
            &&& unmatched_open_at(toks, r->Err_0)
            &&& forall|k: int|
                r->Err_0 < k < toks.len() ==> !#[trigger] unmatched_open_at(toks, k)
        }),
    decreases toks.len() - i,
{
    let len = toks.len() as int;
    if i >= len {
        if stack.len() == 0 {
            // The scan returns `Ok(toks)`; every matched pair lies before
            // `i` and is rewritten already.
            assert(resolve_from(toks, i, stack) == Ok::<Seq<BfToken>, int>(toks));
        } else {
            // The scan returns the innermost open start.
            let m = stack.len() as int;
            let top = stack[m - 1];
            assert(resolve_from(toks, i, stack) == Err::<Seq<BfToken>, int>(top));
            assert(unmatched_open_at(toks, top)) by {
                assert forall|k: int| top < k <= len implies #[trigger] depth(toks, k) > depth(
                    toks,
                    top,
                ) by {
                    assert(depth(toks, k) > m - 1);
                }
            }
            assert forall|k: int| top < k < len implies !#[trigger] unmatched_open_at(toks, k) by {
                if unmatched_open_at(toks, k) {
                    if stack.contains(k) {
                        let e = choose|e: int| 0 <= e < m && stack[e] == k;
                        assert(depth(toks, k) == e);
                        assert(depth(toks, k) > m - 1);
                    } else {
                        let b = choose|b: int| b < i && #[trigger] matched_pair(toks, k, b);
                        lemma_matched_pair_after(toks, k, b);
                        assert(depth(toks, b + 1) > depth(toks, k));
                    }
                }
            }
        }
    } else {
        let t = toks[i];
        assert(depth(toks, i + 1) == depth(toks, i) + nesting_delta(t));
        if t is LoopStart {
            let stack2 = stack.push(i);
            assert(scan_inv(toks, i + 1, stack2)) by {
                assert forall|d: int, k: int|
                    0 <= d < stack2.len() && #[trigger] stack2[d] < k <= i + 1 implies #[trigger]
                depth(toks, k) > d by {
                    if d < stack.len() {
                        assert(stack2[d] == stack[d]);
                        if k <= i {
                            assert(depth(toks, k) > d);
                        } else {
                            assert(depth(toks, i + 1) == stack.len() + 1);
                        }
                    } else {
                        assert(stack2[d] == i);
                        assert(k == i + 1);
                    }
                }
                assert forall|k: int|
                    0 <= k < i + 1 && #[trigger] toks[k] is LoopStart && !stack2.contains(
                        k,
                    ) implies exists|b: int| b < i + 1 && #[trigger] matched_pair(toks, k, b) by {
                    assert(k != i);
                    assert(!stack.contains(k)) by {
                        if stack.contains(k) {
                            let e = choose|e: int| 0 <= e < stack.len() && stack[e] == k;
                            assert(stack2[e] == k);
                        }
                    }
                    let b = choose|b: int| b < i && #[trigger] matched_pair(toks, k, b);
                    assert(b < i + 1 && matched_pair(toks, k, b));
                }
            }
            lemma_scan(toks, i + 1, stack2);
            assert(resolve_from(toks, i, stack) == resolve_from(toks, i + 1, stack2));
            assert forall|u: int| #[trigger] unmatched_close_from(toks, i, u) implies resolve_from(
                toks,
                i,
                stack,
            ) == Err::<Seq<BfToken>, int>(u) by {
                assert(unmatched_close_from(toks, i + 1, u));
            }
            if closes_covered_from(toks, i) {
                assert(closes_covered_from(toks, i + 1));
            }
        } else if t is LoopEnd {
            if stack.len() == 0 {
                assert(resolve_from(toks, i, stack) == Err::<Seq<BfToken>, int>(i));
                assert(depth(toks, i) == 0);
                assert forall|u: int| #[trigger] unmatched_close_from(
                    toks,
                    i,
                    u,
                ) implies resolve_from(toks, i, stack) == Err::<Seq<BfToken>, int>(u) by {
                    if u != i {
                        assert(i <= i < u && toks[i] is LoopEnd && depth(toks, i) == 0);
                    }
                }
                assert(!closes_covered_from(toks, i)) by {
                    assert(i <= i < toks.len() && toks[i] is LoopEnd && depth(toks, i) == 0);
                }
            } else {
                let m = stack.len() as int;
                let a = stack[m - 1];
                assert(0 <= a < i);
                assert(toks[a] is LoopStart);
                assert(depth(toks, a) == m - 1);
                assert(depth(toks, i) == m);
                let toks2 = toks.update(
                    a,
                    BfToken::LoopStart(#[verifier::truncate] (i as usize)),
                ).update(i, BfToken::LoopEnd(#[verifier::truncate] (a as usize)));
                let stack2 = stack.drop_last();
                lemma_rewrite_preserves(toks, a, i);
                assert(resolve_from(toks, i, stack) == resolve_from(toks2, i + 1, stack2));
                assert(matched_pair(toks, a, i)) by {
                    assert forall|k: int| a < k <= i implies #[trigger] depth(toks, k) > depth(
                        toks,
                        a,
                    ) by {
                        assert(depth(toks, k) > m - 1);
                    }
                }
                assert(matched_pair(toks2, a, i));
                // Any pair that closes at `i` opens at `a`, and `a` closes
                // only at `i`.
                assert forall|x: int| #[trigger] matched_pair(toks, x, i) implies x == a by {
                    if !stack.contains(x) {
                        let b = choose|b: int| b < i && #[trigger] matched_pair(toks, x, b);
                        lemma_match_unique_end(toks, x, b, i);
                    } else {
                        let e = choose|e: int| 0 <= e < m && stack[e] == x;
                        assert(depth(toks, x) == e);
                        assert(depth(toks, i) == depth(toks, x) + 1);
                        assert(e == m - 1);
                    }
                }
                assert(scan_inv(toks2, i + 1, stack2)) by {
                    assert(stack2.len() == depth(toks2, i + 1));
                    assert forall|k: int| 0 <= k <= i + 1 implies #[trigger] depth(toks2, k)
                        >= 0 by {
                        assert(depth(toks2, k) == depth(toks, k));
                    }
                    assert forall|k: int|
                        0 <= k < i + 1 && toks2[k] is LoopEnd implies #[trigger] depth(toks2, k)
                        >= 1 by {
                        assert(depth(toks2, k) == depth(toks, k));
                        assert(toks[k] is LoopEnd);
                    }
                    assert forall|d: int| 0 <= d < stack2.len() implies toks2[#[trigger] stack2[d]]
                        is LoopStart by {
                        assert(stack2[d] == stack[d]);
                        assert(toks[stack[d]] is LoopStart);
                        if stack[d] == a {
                        } else if stack[d] == i {
                            assert(toks[i] is LoopEnd);
                        } else {
                            assert(toks2[stack[d]] == toks[stack[d]]);
                        }
                    }
                    assert forall|d: int| 0 <= d < stack2.len() implies depth(
                        toks2,
                        #[trigger] stack2[d],
                    ) == d by {
                        assert(stack2[d] == stack[d]);
                        assert(depth(toks2, stack[d]) == depth(toks, stack[d]));
                    }
                    assert forall|d: int, k: int|
                        0 <= d < stack2.len() && #[trigger] stack2[d] < k <= i + 1 implies
                    #[trigger] depth(toks2, k) > d by {
                        assert(stack2[d] == stack[d]);
                        assert(depth(toks2, k) == depth(toks, k));
                        if k <= i {
                            assert(depth(toks, k) > d);
                        } else {
                            assert(depth(toks, i + 1) == m - 1);
                        }
                    }
                    assert forall|x: int, y: int|
                        #[trigger] matched_pair(toks2, x, y) && y < i + 1 implies toks2[x]
                        == BfToken::LoopStart(#[verifier::truncate] (y as usize)) && toks2[y]
                        == BfToken::LoopEnd(#[verifier::truncate] (x as usize)) by {
                        assert(matched_pair(toks, x, y));
                        if y == i {
                            assert(x == a);
                        } else {
                            assert(toks[x] == BfToken::LoopStart(#[verifier::truncate] (y as usize)));
                            assert(toks[y] == BfToken::LoopEnd(#[verifier::truncate] (x as usize)));
                            assert(x != a) by {
                                if x == a {
                                    lemma_match_unique_end(toks, a, y, i);
                                }
                            }
                            assert(x != i && y != i);
                            assert(y != a) by {
                                if y == a {
                                    assert(toks[a] is LoopStart);
                                }
                            }
                            assert(toks2[x] == toks[x]);
                            assert(toks2[y] == toks[y]);
                        }
                    }
                    assert forall|k: int|
                        0 <= k < i + 1 && #[trigger] toks2[k] is LoopStart && !stack2.contains(
                            k,
                        ) implies exists|b: int| b < i + 1 && #[trigger] matched_pair(
                        toks2,
                        k,
                        b,
                    ) by {
                        assert(toks[k] is LoopStart);
                        if k == a {
                            assert(matched_pair(toks2, a, i));
                            assert(i < i + 1 && matched_pair(toks2, a, i));
                        } else {
                            assert(k != i) by {
                                assert(toks[i] is LoopEnd);
                            }
                            if stack.contains(k) {
                                let e = choose|e: int| 0 <= e < m && stack[e] == k;
                                assert(e < m - 1) by {
                                    if e == m - 1 {
                                        assert(stack[e] == a);
                                    }
                                }
                                assert(stack2[e] == k);
                            } else {
                                let b = choose|b: int| b < i && #[trigger] matched_pair(toks, k, b);
                                assert(matched_pair(toks2, k, b));
                                assert(b < i + 1 && matched_pair(toks2, k, b));
                            }
                        }
                    }
                }
                lemma_scan(toks2, i + 1, stack2);
                // Map each conclusion back from `toks2` to `toks`.
                assert forall|u: int| #[trigger] unmatched_close_from(
                    toks,
                    i,
                    u,
                ) implies resolve_from(toks, i, stack) == Err::<Seq<BfToken>, int>(u) by {
                    assert(u != i) by {
                        assert(depth(toks, i) == m >= 1);
                    }
                    assert(unmatched_close_from(toks, i + 1, u));
                    assert(unmatched_close_from(toks2, i + 1, u));
                }
                if closes_covered_from(toks, i) {
                    assert(closes_covered_from(toks, i + 1));
                    assert(closes_covered_from(toks2, i + 1));
                    assert(depth(toks2, len) == depth(toks, len));
                    if depth(toks, len) == 0 {
                        let r = resolve_from(toks2, i + 1, stack2);
                        assert forall|j: int|
                            0 <= j < toks.len() && !(toks[j] is LoopStart) && !(toks[j] is LoopEnd)
                                implies r->Ok_0[j] == #[trigger] toks[j] by {
                            assert(!(toks2[j] is LoopStart) && !(toks2[j] is LoopEnd));
                            assert(j != a && j != i);
                            assert(toks2[j] == toks[j]);
                        }
                        assert forall|x: int, y: int| #[trigger] matched_pair(toks, x, y) implies
                            r->Ok_0[x] == BfToken::LoopStart(#[verifier::truncate] (y as usize))
                            && r->Ok_0[y] == BfToken::LoopEnd(
                            #[verifier::truncate] (x as usize),
                        ) by {
                            assert(matched_pair(toks2, x, y));
                        }
                    }
                    if depth(toks, len) > 0 {
                        let r = resolve_from(toks2, i + 1, stack2);
                        assert(unmatched_open_at(toks, r->Err_0));
                        assert forall|k: int| r->Err_0 < k < toks.len() implies !#[trigger]
                        unmatched_open_at(toks, k) by {
                            assert(!unmatched_open_at(toks2, k));
                        }
                    }
                }
            }
        } else {
            assert(scan_inv(toks, i + 1, stack)) by {
                assert forall|k: int|
                    0 <= k < i + 1 && #[trigger] toks[k] is LoopStart && !stack.contains(
                        k,
                    ) implies exists|b: int| b < i + 1 && #[trigger] matched_pair(toks, k, b) by {
                    assert(k != i);
                    let b = choose|b: int| b < i && #[trigger] matched_pair(toks, k, b);
                    assert(b < i + 1 && matched_pair(toks, k, b));
                }
            }
            lemma_scan(toks, i + 1, stack);
            assert(resolve_from(toks, i, stack) == resolve_from(toks, i + 1, stack));
            assert forall|u: int| #[trigger] unmatched_close_from(toks, i, u) implies resolve_from(
                toks,
                i,
                stack,
            ) == Err::<Seq<BfToken>, int>(u) by {
                assert(unmatched_close_from(toks, i + 1, u));
            }
            if closes_covered_from(toks, i) {
                assert(closes_covered_from(toks, i + 1));
            }
        }
    }
}

// ---------------------------------------------------------------------------
// Completeness: finding partners, finding the first unclosable end
// ---------------------------------------------------------------------------

/// When the whole sequence comes back to depth zero, a loop start still open
/// at `c` closes at some later position.
proof fn lemma_find_close(toks: Seq<BfToken>, a: int, c: int) -> (b: int)
    requires
        0 <= a < c <= toks.len(),
        toks[a] is LoopStart,
        depth(toks, a) >= 0,
        depth(toks, toks.len() as int) == 0,
        forall|k: int| a < k <= c ==> #[trigger] depth(toks, k) > depth(toks, a),
    ensures
        matched_pair(toks, a, b),
    decreases toks.len() - c,
{
    let len = toks.len() as int;
    if c == len {
        assert(depth(toks, len) > depth(toks, a));
        assert(false);
        0
    } else {
        assert(depth(toks, c + 1) == depth(toks, c) + nesting_delta(toks[c]));
        if depth(toks, c + 1) <= depth(toks, a) {
            assert(depth(toks, c) > depth(toks, a));
            assert(nesting_delta(toks[c]) == -1);
            assert(toks[c] is LoopEnd);
            assert(depth(toks, c) == depth(toks, a) + 1);
            c
        } else {
            lemma_find_close(toks, a, c + 1)
        }
    }
}

/// A loop end in front of which the depth is positive closes some earlier
/// loop start.
proof fn lemma_find_open(toks: Seq<BfToken>, b: int, c: int) -> (a: int)
    requires
        0 <= c <= b < toks.len(),
        toks[b] is LoopEnd,
        depth(toks, b) >= 1,
        forall|k: int| c < k <= b ==> #[trigger] depth(toks, k) > depth(toks, b) - 1,
    ensures
        matched_pair(toks, a, b),
    decreases c,
{
    if depth(toks, c) <= depth(toks, b) - 1 {
        assert(c < b) by {
            assert(depth(toks, b) > depth(toks, b) - 1);
        }
        assert(depth(toks, c + 1) == depth(toks, c) + nesting_delta(toks[c]));
        assert(depth(toks, c + 1) > depth(toks, b) - 1);
        assert(nesting_delta(toks[c]) == 1);
        assert(toks[c] is LoopStart);
        assert(depth(toks, c) == depth(toks, b) - 1);
        assert forall|k: int| c < k <= b implies #[trigger] depth(toks, k) > depth(toks, c) by {
            assert(depth(toks, k) > depth(toks, b) - 1);
        }
        c
    } else {
        if c == 0 {
            assert(depth(toks, 0) == 0);
            assert(false);
            0
        } else {
            assert(depth(toks, c) > depth(toks, b) - 1);
            lemma_find_open(toks, b, c - 1)
        }
    }
}

/// When every loop end closes something, the depth never goes negative.
proof fn lemma_depth_nonneg(toks: Seq<BfToken>, k: int)
    requires
        forall|k2: int|
            0 <= k2 < toks.len() && toks[k2] is LoopEnd ==> #[trigger] depth(toks, k2) >= 1,
        k <= toks.len(),
    ensures
        depth(toks, k) >= 0,
    decreases k,
{
    if k > 0 {
        lemma_depth_nonneg(toks, k - 1);
        assert(depth(toks, k) == depth(toks, k - 1) + nesting_delta(toks[k - 1]));
        if nesting_delta(toks[k - 1]) == -1 {
            assert(toks[k - 1] is LoopEnd);
        }
    }
}

/// When some loop end closes nothing, there is a first one.
proof fn lemma_first_bad_close(toks: Seq<BfToken>, c: int) -> (u: int)
    requires
        0 <= c <= toks.len(),
        forall|k: int| 0 <= k < c ==> !(toks[k] is LoopEnd && #[trigger] depth(toks, k) == 0),
        forall|k: int| 0 <= k <= c ==> #[trigger] depth(toks, k) >= 0,
        exists|k: int|
            c <= k < toks.len() && toks[k] is LoopEnd && #[trigger] depth(toks, k) <= 0,
    ensures
        unmatched_close_at(toks, u),
    decreases toks.len() - c,
{
    let bad = choose|k: int|
        c <= k < toks.len() && toks[k] is LoopEnd && #[trigger] depth(toks, k) <= 0;
    if toks[c] is LoopEnd && depth(toks, c) == 0 {
        c
    } else {
        assert(c < toks.len());
        assert(bad != c);
        assert(depth(toks, c + 1) >= 0) by {
            assert(depth(toks, c + 1) == depth(toks, c) + nesting_delta(toks[c]));
            if nesting_delta(toks[c]) == -1 {
                assert(toks[c] is LoopEnd);
                assert(depth(toks, c) >= 1);
            }
        }
        lemma_first_bad_close(toks, c + 1)
    }
}

// ---------------------------------------------------------------------------
// The public laws of the resolution scan
// ---------------------------------------------------------------------------

/// The scan invariant holds trivially at the start of the scan.
proof fn lemma_scan_inv_init(toks: Seq<BfToken>)
    ensures
        scan_inv(toks, 0, Seq::empty()),
{
}

/// Law: a token sequence whose loops are balanced resolves successfully;
/// every loop token then carries the position of its syntactic partner, and
/// every other token comes through unchanged.
pub proof fn lemma_resolve_balanced(toks: Seq<BfToken>)
    requires
        balanced(toks),
    ensures
        spec_resolve(toks) is Ok,
        spec_resolve(toks)->Ok_0.len() == toks.len(),
        forall|j: int|
            0 <= j < toks.len() && !(toks[j] is LoopStart) && !(toks[j] is LoopEnd)
                ==> spec_resolve(toks)->Ok_0[j] == #[trigger] toks[j],
        forall|a: int, b: int|
            #[trigger] matched_pair(toks, a, b) ==> spec_resolve(toks)->Ok_0[a]
                == BfToken::LoopStart(#[verifier::truncate] (b as usize)) && spec_resolve(
                toks,
            )->Ok_0[b] == BfToken::LoopEnd(#[verifier::truncate] (a as usize)),
        forall|a: int|
            0 <= a < toks.len() && #[trigger] toks[a] is LoopStart ==> exists|b: int|
                #[trigger] matched_pair(toks, a, b),
        forall|b: int|
            0 <= b < toks.len() && #[trigger] toks[b] is LoopEnd ==> exists|a: int|
                #[trigger] matched_pair(toks, a, b),
{
    lemma_scan_inv_init(toks);
    assert(closes_covered_from(toks, 0)) by {
        assert forall|k: int|
            0 <= k < toks.len() && toks[k] is LoopEnd implies #[trigger] depth(toks, k) >= 1 by {
            assert(depth(toks, k + 1) == depth(toks, k) + nesting_delta(toks[k]));
            assert(depth(toks, k + 1) >= 0);
        }
    }
    lemma_scan(toks, 0, Seq::empty());
    assert forall|a: int| 0 <= a < toks.len() && #[trigger] toks[a] is LoopStart implies exists|
        b: int,
    | #[trigger] matched_pair(toks, a, b) by {
        assert(depth(toks, a + 1) == depth(toks, a) + 1);
        let b = lemma_find_close(toks, a, a + 1);
        assert(matched_pair(toks, a, b));
    }
    assert forall|b: int| 0 <= b < toks.len() && #[trigger] toks[b] is LoopEnd implies exists|
        a: int,
    | #[trigger] matched_pair(toks, a, b) by {
        assert(depth(toks, b) >= 1) by {
            assert(depth(toks, b + 1) == depth(toks, b) + nesting_delta(toks[b]));
            assert(depth(toks, b + 1) >= 0);
        }
        let a = lemma_find_open(toks, b, b);
        assert(matched_pair(toks, a, b));
    }
}

/// Law: when the loop end at `u` closes nothing and no earlier loop end is
/// in that situation, resolution fails exactly at `u`.
pub proof fn lemma_resolve_unmatched_close(toks: Seq<BfToken>, u: int)
    requires
        unmatched_close_at(toks, u),
    ensures
        spec_resolve(toks) == Err::<Seq<BfToken>, int>(u),
{
    lemma_scan_inv_init(toks);
    lemma_scan(toks, 0, Seq::empty());
    assert(unmatched_close_from(toks, 0, u));
}

/// Law: when every loop end closes a loop start but at least one start never
/// closes, resolution fails at the innermost — the last — unclosed start.
pub proof fn lemma_resolve_unmatched_open(toks: Seq<BfToken>, j: int)
    requires
        forall|k: int|
            0 <= k < toks.len() && toks[k] is LoopEnd ==> #[trigger] depth(toks, k) >= 1,
        unmatched_open_at(toks, j),
        forall|k: int| j < k < toks.len() ==> !#[trigger] unmatched_open_at(toks, k),
    ensures
        spec_resolve(toks) == Err::<Seq<BfToken>, int>(j),
{
    lemma_scan_inv_init(toks);
    lemma_scan(toks, 0, Seq::empty());
    assert(closes_covered_from(toks, 0));
    lemma_depth_nonneg(toks, j);
    assert(depth(toks, toks.len() as int) > depth(toks, j));
    let r = spec_resolve(toks);
    assert(r is Err);
    let e = r->Err_0;
    assert(unmatched_open_at(toks, e));
    if e < j {
        assert(!unmatched_open_at(toks, j));
        assert(false);
    }
    if e > j {
        assert(!unmatched_open_at(toks, e));
        assert(false);
    }
}

/// Sequences with the same depth contributions in front of `k` have the
/// same depth at `k`.
pub proof fn lemma_depth_agree(t1: Seq<BfToken>, t2: Seq<BfToken>, k: int)
    requires
        forall|j: int| 0 <= j < k ==> nesting_delta(#[trigger] t1[j]) == nesting_delta(t2[j]),
    ensures
        depth(t1, k) == depth(t2, k),
    decreases k,
{
    if k > 0 {
        lemma_depth_agree(t1, t2, k - 1);
    }
}

/// The depth within the second part of a concatenation adds to the depth at
/// the end of the first part.
pub proof fn lemma_depth_append(a: Seq<BfToken>, b: Seq<BfToken>, j: int)
    requires
        0 <= j <= b.len(),
    ensures
        depth(a + b, a.len() + j) == depth(a, a.len() as int) + depth(b, j),
    decreases j,
{
    if j == 0 {
        assert forall|i: int| 0 <= i < a.len() implies nesting_delta(#[trigger] (a + b)[i])
            == nesting_delta(a[i]) by {}
        lemma_depth_agree(a + b, a, a.len() as int);
    } else {
        lemma_depth_append(a, b, j - 1);
        assert((a + b)[a.len() + j - 1] == b[j - 1]);
    }
}

/// Resolution does not disturb the loop structure: the resolved form of a
/// balanced sequence is balanced again.
pub proof fn lemma_resolve_preserves_balance(toks: Seq<BfToken>)
    requires
        balanced(toks),
    ensures
        spec_resolve(toks) is Ok,
        balanced(spec_resolve(toks)->Ok_0),
        spec_resolve(toks)->Ok_0.len() == toks.len(),
{
    lemma_resolve_balanced(toks);
    let r = spec_resolve(toks)->Ok_0;
    assert forall|k: int| 0 <= k < toks.len() implies nesting_delta(#[trigger] r[k])
        == nesting_delta(toks[k]) by {
        if toks[k] is LoopStart {
            let b = choose|b: int| #[trigger] matched_pair(toks, k, b);
            assert(r[k] == BfToken::LoopStart(#[verifier::truncate] (b as usize)));
        } else if toks[k] is LoopEnd {
            let a = choose|a: int| #[trigger] matched_pair(toks, a, k);
            assert(r[k] == BfToken::LoopEnd(#[verifier::truncate] (a as usize)));
        } else {
            assert(r[k] == toks[k]);
        }
    }
    assert forall|k: int| 0 <= k <= r.len() implies #[trigger] depth(r, k) >= 0 by {
        lemma_depth_agree(r, toks, k);
    }
    lemma_depth_agree(r, toks, r.len() as int);
}

/// Law: resolution succeeds exactly on balanced token sequences.
pub proof fn lemma_resolve_ok_iff_balanced(toks: Seq<BfToken>)
    ensures
        spec_resolve(toks) is Ok <==> balanced(toks),
{
    lemma_scan_inv_init(toks);
    lemma_scan(toks, 0, Seq::empty());
    let len = toks.len() as int;
    if balanced(toks) {
        assert(closes_covered_from(toks, 0)) by {
            assert forall|k: int|
                0 <= k < toks.len() && toks[k] is LoopEnd implies #[trigger] depth(toks, k)
                >= 1 by {
                assert(depth(toks, k + 1) == depth(toks, k) + nesting_delta(toks[k]));
                assert(depth(toks, k + 1) >= 0);
            }
        }
        assert(spec_resolve(toks) is Ok);
    } else {
        if exists|k: int|
            0 <= k < toks.len() && toks[k] is LoopEnd && #[trigger] depth(toks, k) <= 0 {
            let u = lemma_first_bad_close(toks, 0);
            assert(unmatched_close_from(toks, 0, u));
            assert(spec_resolve(toks) is Err);
        } else {
            assert forall|k: int|
                0 <= k < toks.len() && toks[k] is LoopEnd implies #[trigger] depth(toks, k)
                >= 1 by {
                assert(!(toks[k] is LoopEnd && depth(toks, k) <= 0));
            }
            assert(closes_covered_from(toks, 0));
            assert forall|k: int| 0 <= k <= len implies #[trigger] depth(toks, k) >= 0 by {
                lemma_depth_nonneg(toks, k);
            }
            assert(depth(toks, len) > 0);
            assert(spec_resolve(toks) is Err);
        }
    }
}

} // verus!
