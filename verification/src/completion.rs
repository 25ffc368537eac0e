use vstd::prelude::*;
use crate::grid::{
    advance, at, full, holds, is_put, legal, lemma_same_is_equal, peers, rank, valid, Grid, Pos,
    Value,
};

verus! {

/// The cells at `p` and `q` are both filled, with the same digit.
pub open spec fn clash(h: Grid, p: Pos, q: Pos) -> bool {
    at(h, p) matches Some(v) && holds(at(h, q), v.digit())
}

/// No other peer of `p` repeats the digit at `p`.
pub open spec fn cell_ok(h: Grid, p: Pos) -> bool {
    forall|q: Pos| valid(q) && q != p && peers(p, q) ==> !#[trigger] clash(h, p, q)
}

/// What a completion `h` of `g` holds at `p`: the content of `g` where
/// `g` is filled, and elsewhere a guess between 1 and 9 that no peer repeats.
pub open spec fn fills(h: Grid, g: Grid, p: Pos) -> bool {
    match at(g, p) {
        Some(v) => at(h, p) == Some(v),
        None => at(h, p) matches Some(Value::Maybe(d)) && 1 <= d <= 9 && cell_ok(h, p),
    }
}

/// `h` is a completion of `g`: a full grid that keeps every filled cell
/// of `g` as it is and fills every empty one as `fills` says.
pub open spec fn completion(h: Grid, g: Grid) -> bool {
    full(h) && forall|p: Pos| valid(p) ==> #[trigger] fills(h, g, p)
}

/// `g` has at least one completion.
pub open spec fn solvable(g: Grid) -> bool {
    exists|h: Grid| completion(h, g)
}

/// The digit at `p`, or 0 where the cell is empty.
pub open spec fn digit_at(h: Grid, p: Pos) -> int {
    match at(h, p) {
        Some(v) => v.digit() as int,
        None => 0,
    }
}

/// The two grids agree on every cell that a search visits before `p`.
pub open spec fn agree_before(f: Grid, h: Grid, p: Pos) -> bool {
    forall|q: Pos| valid(q) && rank(q) < rank(p) ==> at(f, q) == #[trigger] at(h, q)
}

/// A search meets `f` sooner than `h`: at the first cell in search order
/// where the two differ, `f` holds the smaller digit.
pub open spec fn sooner(f: Grid, h: Grid) -> bool {
    exists|p: Pos| valid(p) && #[trigger] digit_at(f, p) < digit_at(h, p) && agree_before(f, h, p)
}

/// `f` is the completion of `g` that a search meets first.
pub open spec fn first_completion(f: Grid, g: Grid) -> bool {
    completion(f, g) && forall|h: Grid| #[trigger] completion(h, g) ==> h == f || sooner(f, h)
}

/// `s` is a completion of `g`, and `g` has no other.
pub open spec fn only_completion(s: Grid, g: Grid) -> bool {
    completion(s, g) && forall|h: Grid| #[trigger] completion(h, g) ==> h == s
}

/// `g` has exactly one completion.
pub open spec fn unique(g: Grid) -> bool {
    exists|s: Grid| only_completion(s, g)
}

/// `g` has two completions that differ.
pub open spec fn ambiguous(g: Grid) -> bool {
    exists|h1: Grid, h2: Grid|
        #![trigger completion(h1, g), completion(h2, g)]
        completion(h1, g) && completion(h2, g) && h1 != h2
}

/// Every cell that a search has passed before it reaches `c` is filled.
pub open spec fn prefix_filled(b: Grid, c: Pos) -> bool {
    forall|p: Pos| valid(p) && rank(p) < rank(c) ==> (#[trigger] at(b, p)).is_some()
}

/// The two grids agree everywhere but, possibly, at `c`.
pub open spec fn same_but(h: Grid, g: Grid, c: Pos) -> bool {
    forall|q: Pos| valid(q) && q != c ==> #[trigger] at(h, q) == at(g, q)
}

/// How far a search at `c` on the board `b` is from its end.
pub open spec fn distance(b: Grid, c: Pos) -> int {
    if full(b) {
        0
    } else {
        81 - rank(c)
    }
}

/// A puzzle has no completion, exactly one, or two that differ, and
/// only one of the three holds.
pub proof fn lemma_three_cases(g: Grid)
    ensures
        solvable(g) <==> unique(g) || ambiguous(g),
        !(unique(g) && ambiguous(g)),
{
    if solvable(g) && !unique(g) {
        let h = choose|h: Grid| completion(h, g);
        assert(!only_completion(h, g));
        let k = choose|k: Grid| #[trigger] completion(k, g) && k != h;
        assert(completion(h, g) && completion(k, g) && h != k);
    }
    if unique(g) {
        let s = choose|s: Grid| only_completion(s, g);
        assert(completion(s, g));
        if ambiguous(g) {
            let (h1, h2) = choose|h1: Grid, h2: Grid|
                #![trigger completion(h1, g), completion(h2, g)]
                completion(h1, g) && completion(h2, g) && h1 != h2;
            assert(h1 == s && h2 == s);
        }
    }
    if ambiguous(g) {
        let (h1, h2) = choose|h1: Grid, h2: Grid|
            #![trigger completion(h1, g), completion(h2, g)]
            completion(h1, g) && completion(h2, g) && h1 != h2;
        assert(completion(h1, g));
    }
}

/// A full grid is its own completion, and its only one.
pub proof fn lemma_full_completes_itself(b: Grid)
    requires
        full(b),
    ensures
        completion(b, b),
        forall|h: Grid| #[trigger] completion(h, b) ==> h == b,
        first_completion(b, b),
{
    assert forall|p: Pos| valid(p) implies #[trigger] fills(b, b, p) by {
        assert(at(b, p).is_some());
    }
    assert forall|h: Grid| #[trigger] completion(h, b) implies h == b by {
        assert forall|p: Pos| valid(p) implies at(h, p) == #[trigger] at(b, p) by {
            assert(fills(h, b, p));
            assert(at(b, p).is_some());
        }
        lemma_same_is_equal(h, b);
    }
}

/// Once the cell at `c` is filled, the search may move on: the cells
/// before the next one are filled, and the search has come closer to its end.
pub proof fn lemma_move_on(b: Grid, c: Pos)
    requires
        valid(c),
        prefix_filled(b, c),
        at(b, c).is_some(),
    ensures
        valid(advance(c)),
        prefix_filled(b, advance(c)),
        rank(c) == 80 ==> full(b),
        !full(b) ==> distance(b, advance(c)) < 81 - rank(c),
        0 <= distance(b, advance(c)),
{
    assert forall|p: Pos| valid(p) && rank(p) < rank(advance(c)) implies (#[trigger] at(
        b,
        p,
    )).is_some() by {
        if rank(p) == rank(c) {
            assert(p == c);
        }
    }
    if rank(c) == 80 {
        assert forall|p: Pos| valid(p) implies (#[trigger] at(b, p)).is_some() by {
            if rank(p) == rank(c) {
                assert(p == c);
            }
        }
    }
}

/// A completion of the board with a legal guess written at the empty
/// cell `c` is a completion of the board without it.
pub proof fn lemma_guess_kept(f: Grid, bk: Grid, b: Grid, c: Pos, d: u8)
    requires
        valid(c),
        at(b, c).is_none(),
        is_put(bk, b, c, Some(Value::Maybe(d))),
        1 <= d <= 9,
        legal(b, c, d),
        completion(f, bk),
    ensures
        completion(f, b),
{
    assert forall|p: Pos| valid(p) implies #[trigger] fills(f, b, p) by {
        assert(fills(f, bk, p));
        assert(at(bk, p) == (if p == c { Some(Value::Maybe(d)) } else { at(b, p) }));
        if p == c {
            assert(at(f, c) == Some(Value::Maybe(d)));
            assert forall|q: Pos| valid(q) && q != c && peers(c, q) implies !#[trigger] clash(
                f,
                c,
                q,
            ) by {
                assert(fills(f, bk, q));
                assert(at(bk, q) == at(b, q));
                match at(b, q) {
                    Some(v) => {
                        assert(!holds(at(b, q), d));
                    },
                    None => {
                        assert(cell_ok(f, q));
                        assert(peers(q, c));
                        assert(!clash(f, q, c));
                    },
                }
            }
        }
    }
}

/// A completion of the board that holds the guess `d` at the empty cell
/// `c` is a completion of the board with that guess written in.
pub proof fn lemma_guess_made(h: Grid, bk: Grid, b: Grid, c: Pos, d: u8)
    requires
        valid(c),
        is_put(bk, b, c, Some(Value::Maybe(d))),
        completion(h, b),
        at(h, c) == Some(Value::Maybe(d)),
    ensures
        completion(h, bk),
{
    assert forall|p: Pos| valid(p) implies #[trigger] fills(h, bk, p) by {
        assert(fills(h, b, p));
        assert(at(bk, p) == (if p == c { Some(Value::Maybe(d)) } else { at(b, p) }));
    }
}

/// The first completion of the board with the guess `d` written at the
/// empty cell `c` is the first completion of the board without it, when
/// no completion of the board holds a smaller guess at `c`.
pub proof fn lemma_first_kept(f: Grid, bk: Grid, b: Grid, c: Pos, d: u8)
    requires
        valid(c),
        prefix_filled(b, c),
        at(b, c).is_none(),
        is_put(bk, b, c, Some(Value::Maybe(d))),
        1 <= d <= 9,
        legal(b, c, d),
        first_completion(f, bk),
        forall|h: Grid| #[trigger] completion(h, b) ==> digit_at(h, c) >= d,
    ensures
        first_completion(f, b),
{
    lemma_guess_kept(f, bk, b, c, d);
    assert(fills(f, bk, c));
    assert(at(f, c) == Some(Value::Maybe(d)));
    assert forall|h: Grid| #[trigger] completion(h, b) implies h == f || sooner(f, h) by {
        assert(fills(h, b, c));
        if digit_at(h, c) == d {
            lemma_guess_made(h, bk, b, c, d);
        } else {
            assert forall|q: Pos| valid(q) && rank(q) < rank(c) implies at(f, q) == #[trigger] at(
                h,
                q,
            ) by {
                assert(at(b, q).is_some());
                assert(fills(f, b, q));
                assert(fills(h, b, q));
            }
            assert(digit_at(f, c) < digit_at(h, c) && agree_before(f, h, c));
        }
    }
}

/// What a completion holds at an empty cell of the board is a guess
/// between 1 and 9 that is legal on the board.
pub proof fn lemma_guess_legal(h: Grid, b: Grid, c: Pos) -> (d: u8)
    requires
        valid(c),
        at(b, c).is_none(),
        completion(h, b),
    ensures
        at(h, c) == Some(Value::Maybe(d)),
        1 <= d <= 9,
        legal(b, c, d),
{
    assert(fills(h, b, c));
    let d = at(h, c)->Some_0.digit();
    assert forall|q: Pos| valid(q) && peers(c, q) implies !holds(#[trigger] at(b, q), d) by {
        if q != c {
            assert(fills(h, b, q));
            assert(!clash(h, c, q));
        }
    }
    d
}

} // verus!
