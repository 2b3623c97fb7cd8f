use vstd::prelude::*;

use crate::grid::{
    find_empty_box, idx, in_range, is_empty, is_valid, peers, unsolved, valid_at,
};

verus! {

/// Where the session stands between two commands.
pub enum GameState {
    Solved,
    NotSolvable,
    WaitingEntry,
    Quit,
}

/// Receives each candidate that the solver tries, placed on the grid, when a
/// solve is visualised.
pub trait StepObserver {
    fn step(&mut self, board: &[i32; 81], constant_map: &[bool; 81]);
}

/// An observer that shows nothing.
pub struct NoDisplay;

impl StepObserver for NoDisplay {
    fn step(&mut self, _board: &[i32; 81], _constant_map: &[bool; 81]) {
    }
}

/// A display together with the frames it has been handed so far.
pub struct Shown<O> {
    pub display: O,
    pub frames: Ghost<Seq<Seq<i32>>>,
}

impl<O: StepObserver> Shown<O> {
    /// Wraps a display that has been handed no frame yet.
    pub fn new(display: O) -> (r: Self)
        ensures
            r.display == display,
            r.frames@ == Seq::<Seq<i32>>::empty(),
    {
        Shown { display, frames: Ghost(Seq::empty()) }
    }

    /// Hands one frame to the display.
    fn show(&mut self, board: &[i32; 81], constant_map: &[bool; 81])
        ensures
            final(self).frames@ == old(self).frames@.push(board@),
    {
        self.display.step(board, constant_map);
        self.frames = Ghost(self.frames@.push(board@));
    }
}

/// The index of the first empty cell of `b` from `k` on, or 81 when there is
/// none.
pub open spec fn first_zero(b: Seq<i32>, k: int) -> int
    decreases 81 - k,
{
    if k >= 81 {
        81
    } else if b[k] == 0 {
        k
    } else {
        first_zero(b, k + 1)
    }
}

/// The frames that a visualised search of `b` shows, in order.
pub open spec fn trace(b: Seq<i32>) -> Seq<Seq<i32>>
    decreases zeros(b), 11int,
{
    let c = first_zero(b, 0);
    if 0 <= c < 81 {
        tries(b, c, 1)
    } else {
        Seq::empty()
    }
}

/// The frames shown while the empty cell `c` of `b` takes the digits from
/// `v` on: each candidate placed on `b`, followed, for a candidate that no
/// peer holds, by the frames of the search that it starts, until one of
/// those searches fills the grid.
pub open spec fn tries(b: Seq<i32>, c: int, v: int) -> Seq<Seq<i32>>
    decreases zeros(b), 10 - v,
    via tries_decreases
{
    if b.len() == 81 && 0 <= c < 81 && b[c] == 0 && 1 <= v <= 9 {
        let nb = b.update(c, v as i32);
        if valid_at(b, v as i32, c / 9, c % 9) {
            if fillable(nb) {
                seq![nb] + trace(nb)
            } else {
                seq![nb] + trace(nb) + tries(b, c, v + 1)
            }
        } else {
            seq![nb] + tries(b, c, v + 1)
        }
    } else {
        Seq::empty()
    }
}

#[via_fn]
proof fn tries_decreases(b: Seq<i32>, c: int, v: int) {
    if b.len() == 81 && 0 <= c < 81 && b[c] == 0 && 1 <= v <= 9 {
        lemma_zeros_fill(b, c, v as i32);
    }
}

proof fn lemma_first_zero(b: Seq<i32>, k: int, c: int)
    requires
        0 <= k <= c <= 81,
        b.len() == 81,
        forall|j: int| k <= j < c ==> b[j] != 0,
        c < 81 ==> b[c] == 0,
    ensures
        first_zero(b, k) == c,
    decreases c - k,
{
    if k < c {
        lemma_first_zero(b, k + 1, c);
    }
}

/// Every cell of `b` that is not empty holds the same value in `f`.
pub open spec fn extends(f: Seq<i32>, b: Seq<i32>) -> bool {
    forall|i: int| 0 <= i < 81 && b[i] != 0 ==> f[i] == b[i]
}

/// `f` fills `b`: it keeps the filled cells of `b`, and each cell that is
/// empty in `b` holds a digit that no peer in `f` holds.
pub open spec fn admissible(f: Seq<i32>, b: Seq<i32>) -> bool {
    &&& f.len() == 81
    &&& extends(f, b)
    &&& forall|r: int, c: int|
        #![trigger f[idx(r, c)]]
        in_range(r) && in_range(c) && is_empty(b, r, c) ==> {
            &&& 1 <= f[idx(r, c)] <= 9
            &&& valid_at(f, f[idx(r, c)], r, c)
        }
}

/// `a` comes before or equals `b` in lexicographic order over the 81 cells.
pub open spec fn lex_le(a: Seq<i32>, b: Seq<i32>) -> bool {
    a == b || exists|k: int|
        0 <= k < 81 && a[k] < b[k] && (forall|j: int| 0 <= j < k ==> a[j] == b[j])
}

/// `f` is the first fill of `b` in lexicographic order.
pub open spec fn first_fill(f: Seq<i32>, b: Seq<i32>) -> bool {
    &&& admissible(f, b)
    &&& forall|g: Seq<i32>| #[trigger] admissible(g, b) ==> lex_le(f, g)
}

/// Some grid fills `b`.
pub open spec fn fillable(b: Seq<i32>) -> bool {
    exists|f: Seq<i32>| admissible(f, b)
}

/// The number of empty cells of `s`.
pub open spec fn zeros(s: Seq<i32>) -> nat
    decreases s.len(),
{
    if s.len() == 0 {
        0
    } else {
        zeros(s.drop_last()) + if s.last() == 0 {
            1nat
        } else {
            0nat
        }
    }
}

proof fn lemma_zeros_fill(s: Seq<i32>, i: int, v: i32)
    requires
        0 <= i < s.len(),
        s[i] == 0,
        v != 0,
    ensures
        zeros(s.update(i, v)) + 1 == zeros(s),
    decreases s.len(),
{
    let t = s.update(i, v);
    if i == s.len() - 1 {
        assert(t.drop_last() =~= s.drop_last());
    } else {
        assert(t.drop_last() =~= s.drop_last().update(i, v));
        lemma_zeros_fill(s.drop_last(), i, v);
    }
}

proof fn lemma_lex_at(a: Seq<i32>, b: Seq<i32>, k: int)
    requires
        0 <= k < 81,
        a[k] < b[k],
        forall|j: int| 0 <= j < k ==> a[j] == b[j],
    ensures
        lex_le(a, b),
{
}

/// A digit that a peer in `b` already holds is in no fill of `b` at (`r`, `c`).
proof fn lemma_invalid_step(b: Seq<i32>, r: int, c: int, v: i32)
    requires
        b.len() == 81,
        in_range(r),
        in_range(c),
        is_empty(b, r, c),
        1 <= v,
        !valid_at(b, v, r, c),
    ensures
        forall|g: Seq<i32>| #[trigger] admissible(g, b) ==> g[idx(r, c)] != v,
{
    assert forall|g: Seq<i32>| #[trigger] admissible(g, b) implies g[idx(r, c)] != v by {
        if g[idx(r, c)] == v {
            assert(valid_at(g, g[idx(r, c)], r, c));
            assert forall|r2: int, c2: int|
                in_range(r2) && in_range(c2) && peers(r, c, r2, c2) implies #[trigger] b[idx(
                r2,
                c2,
            )] != v by {
                if b[idx(r2, c2)] != 0 {
                    assert(g[idx(r2, c2)] == b[idx(r2, c2)]);
                }
            }
        }
    }
}

/// When the grid with `v` placed at (`r`, `c`) has no fill, no fill of the
/// grid holds `v` there.
proof fn lemma_failed_step(b0: Seq<i32>, b1: Seq<i32>, r: int, c: int, v: i32)
    requires
        b0.len() == 81,
        in_range(r),
        in_range(c),
        is_empty(b0, r, c),
        b1 == b0.update(idx(r, c), v),
        !fillable(b1),
    ensures
        forall|g: Seq<i32>| #[trigger] admissible(g, b0) ==> g[idx(r, c)] != v,
{
    assert forall|g: Seq<i32>| #[trigger] admissible(g, b0) implies g[idx(r, c)] != v by {
        if g[idx(r, c)] == v {
            assert forall|r2: int, c2: int|
                in_range(r2) && in_range(c2) && is_empty(b1, r2, c2) implies {
                &&& 1 <= #[trigger] g[idx(r2, c2)] <= 9
                &&& valid_at(g, g[idx(r2, c2)], r2, c2)
            } by {
                assert(is_empty(b0, r2, c2));
            }
            assert(admissible(g, b1));
        }
    }
}

/// The first fill of the grid with `v` placed at its first empty cell
/// (`r`, `c`) is the first fill of the grid, when `v` is the least digit that
/// a fill can hold there.
proof fn lemma_solved_step(b0: Seq<i32>, b1: Seq<i32>, f: Seq<i32>, r: int, c: int, v: i32)
    requires
        b0.len() == 81,
        in_range(r),
        in_range(c),
        is_empty(b0, r, c),
        forall|k: int| 0 <= k < idx(r, c) ==> b0[k] != 0,
        1 <= v <= 9,
        valid_at(b0, v, r, c),
        b1 == b0.update(idx(r, c), v),
        first_fill(f, b1),
        forall|g: Seq<i32>| #[trigger] admissible(g, b0) ==> g[idx(r, c)] >= v,
    ensures
        first_fill(f, b0),
{
    assert(f[idx(r, c)] == v);
    assert forall|r3: int, c3: int|
        in_range(r3) && in_range(c3) && peers(r, c, r3, c3) implies #[trigger] f[idx(r3, c3)]
        != v by {
        if b0[idx(r3, c3)] == 0 {
            assert(is_empty(b1, r3, c3));
            assert(valid_at(f, f[idx(r3, c3)], r3, c3));
            assert(peers(r3, c3, r, c));
        }
    }
    assert(valid_at(f, v, r, c));
    assert forall|r2: int, c2: int|
        in_range(r2) && in_range(c2) && is_empty(b0, r2, c2) implies {
        &&& 1 <= #[trigger] f[idx(r2, c2)] <= 9
        &&& valid_at(f, f[idx(r2, c2)], r2, c2)
    } by {
        if r2 != r || c2 != c {
            assert(is_empty(b1, r2, c2));
        }
    }
    assert(admissible(f, b0));
    assert forall|g: Seq<i32>| #[trigger] admissible(g, b0) implies lex_le(f, g) by {
        if g[idx(r, c)] == v {
            assert forall|r2: int, c2: int|
                in_range(r2) && in_range(c2) && is_empty(b1, r2, c2) implies {
                &&& 1 <= #[trigger] g[idx(r2, c2)] <= 9
                &&& valid_at(g, g[idx(r2, c2)], r2, c2)
            } by {
                assert(is_empty(b0, r2, c2));
            }
            assert(admissible(g, b1));
        } else {
            lemma_lex_at(f, g, idx(r, c));
        }
    }
}

/// A first fill of a grid whose givens do not clash is a valid completion.
proof fn lemma_solved_facts(b: Seq<i32>, f: Seq<i32>)
    requires
        b.len() == 81,
        first_fill(f, b),
    ensures
        givens_consistent(b) ==> solvable(b) && valid_completion(f, b),
{
    if givens_consistent(b) {
        lemma_fill_is_valid(b, f);
    }
}

/// A grid with no fill has no valid completion.
proof fn lemma_unfillable_facts(b: Seq<i32>)
    requires
        b.len() == 81,
        !fillable(b),
    ensures
        !solvable(b),
{
    if solvable(b) {
        let f = choose|f: Seq<i32>| valid_completion(f, b);
        law_completable_is_solved(b, f);
    }
}

/// Searches the grid by backtracking: the first empty cell in row-major
/// order takes the digits 1 to 9 in turn, each one that no peer holds is
/// kept while the rest of the grid is solved, and is cleared again when that
/// fails. Returns whether the grid was filled. The givens are not checked
/// against each other: only the digits placed here are, so a grid whose givens
/// clash can still be filled. With `visualize`, each candidate is shown to
/// `observer` on the grid before it is checked.
pub fn recursive_solve<O: StepObserver>(
    board: &mut [i32; 81],
    constant_map: [bool; 81],
    visualize: bool,
    observer: &mut Shown<O>,
) -> (r: bool)
    ensures
        r ==> first_fill(final(board)@, old(board)@),
        !r ==> final(board)@ == old(board)@,
        !r ==> !fillable(old(board)@),
        givens_consistent(old(board)@) ==> (r <==> solvable(old(board)@)),
        r && givens_consistent(old(board)@) ==> valid_completion(final(board)@, old(board)@),
        visualize ==> final(observer).frames@ == old(observer).frames@ + trace(old(board)@),
        !visualize ==> *final(observer) == *old(observer),
    decreases zeros(old(board)@),
{
    let b0 = Ghost(board@);
    let next = find_empty_box(*board);
    match next {
        None => {
            assert forall|g: Seq<i32>| #[trigger] admissible(g, b0@) implies lex_le(board@, g) by {
                assert(g =~= b0@);
            }
            proof {
                lemma_solved_facts(b0@, board@);
                lemma_first_zero(b0@, 0, 81);
                assert(observer.frames@ + trace(b0@) =~= observer.frames@);
            }
            true
        },
        Some((row, col)) => {
            let cell: usize = (row * 9 + col) as usize;
            let ghost c = idx(row as int, col as int);
            proof {
                lemma_first_zero(b0@, 0, c);
                assert(c / 9 == row as int && c % 9 == col as int);
            }
            let mut i: i32 = 1;
            while i <= 9
                invariant
                    1 <= i <= 10,
                    in_range(row as int),
                    in_range(col as int),
                    cell == c,
                    c == idx(row as int, col as int),
                    is_empty(b0@, row as int, col as int),
                    forall|k: int| 0 <= k < c ==> b0@[k] != 0,
                    b0@ == old(board)@,
                    board@ == b0@,
                    forall|g: Seq<i32>| #[trigger] admissible(g, b0@) ==> g[c] >= i,
                    c / 9 == row as int && c % 9 == col as int,
                    trace(b0@) == tries(b0@, c, 1),
                    visualize ==> observer.frames@ + tries(b0@, c, i as int) == old(
                        observer,
                    ).frames@ + trace(b0@),
                    !visualize ==> *observer == *old(observer),
                decreases 10 - i,
            {
                let ghost f0 = observer.frames@;
                let ghost nb = b0@.update(c, i);
                if visualize {
                    board[cell] = i;
                    assert(board@ =~= nb);
                    observer.show(board, &constant_map);
                    board[cell] = 0;
                    assert(board@ =~= b0@);
                }
                let ghost f1 = observer.frames@;
                if is_valid(*board, i, row, col) {
                    board[cell] = i;
                    let ghost b1 = board@;
                    assert(b1 == b0@.update(c, i));
                    proof {
                        lemma_zeros_fill(b0@, c, i);
                    }
                    if recursive_solve(board, constant_map, visualize, observer) {
                        proof {
                            lemma_solved_step(b0@, b1, board@, row as int, col as int, i);
                            lemma_solved_facts(b0@, board@);
                            assert(admissible(board@, b1));
                            assert(fillable(b1));
                            if visualize {
                                assert(f1 + trace(b1) =~= f0 + (seq![nb] + trace(b1)));
                            }
                        }
                        return true;
                    }
                    proof {
                        lemma_failed_step(b0@, b1, row as int, col as int, i);
                        if visualize {
                            assert(f1 + trace(b1) + tries(b0@, c, i + 1) =~= f0 + (seq![nb]
                                + trace(b1) + tries(b0@, c, i + 1)));
                        }
                    }
                    board[cell] = 0;
                    assert(board@ =~= b0@);
                } else {
                    proof {
                        lemma_invalid_step(b0@, row as int, col as int, i);
                        if visualize {
                            assert(f1 + tries(b0@, c, i + 1) =~= f0 + (seq![nb] + tries(
                                b0@,
                                c,
                                i + 1,
                            )));
                        }
                    }
                }
                i = i + 1;
            }
            proof {
                lemma_unfillable_facts(b0@);
                assert(observer.frames@ + tries(b0@, c, 10) =~= observer.frames@);
            }
            false
        },
    }
}

/// Solves the grid in place and records the outcome in `state`. When the
/// givens do not clash and some valid completion keeps them, the outcome is
/// `Solved` and the grid is the first such completion in row-major order;
/// otherwise it is `NotSolvable` and the grid is unchanged. Only a search
/// shows frames: none are shown when the givens clash or without
/// `visualize`.
pub fn solve_board<O: StepObserver>(
    board: &mut [i32; 81],
    constant_map: [bool; 81],
    state: &mut GameState,
    visualize: bool,
    observer: &mut Shown<O>,
)
    ensures
        *final(state) is Solved <==> solvable(old(board)@),
        *final(state) is Solved || *final(state) is NotSolvable,
        *final(state) is Solved ==> valid_completion(final(board)@, old(board)@) && first_fill(
            final(board)@,
            old(board)@,
        ),
        *final(state) is NotSolvable ==> final(board)@ == old(board)@,
        visualize && givens_consistent(old(board)@) ==> final(observer).frames@ == old(
            observer,
        ).frames@ + trace(old(board)@),
        !(visualize && givens_consistent(old(board)@)) ==> *final(observer) == *old(observer),
{
    let ghost b0 = board@;
    if !givens_ok(*board) {
        proof {
            if solvable(b0) {
                let f = choose|f: Seq<i32>| valid_completion(f, b0);
                lemma_completion_consistent(b0, f);
            }
        }
        *state = GameState::NotSolvable;
        return;
    }
    if recursive_solve(board, constant_map, visualize, observer) {
        proof {
            lemma_fill_is_valid(b0, board@);
        }
        *state = GameState::Solved;
    } else {
        proof {
            if solvable(b0) {
                let f = choose|f: Seq<i32>| valid_completion(f, b0);
                law_completable_is_solved(b0, f);
            }
        }
        *state = GameState::NotSolvable;
    }
}

/// Some valid grid keeps every filled cell of `b`.
pub open spec fn solvable(b: Seq<i32>) -> bool {
    exists|f: Seq<i32>| valid_completion(f, b)
}

/// Whether the givens do not clash: every filled cell holds a digit from 1
/// to 9 that none of its peers holds.
pub fn givens_ok(board: [i32; 81]) -> (r: bool)
    ensures
        r == givens_consistent(board@),
{
    let mut i: i32 = 0;
    while i < 9
        invariant
            0 <= i <= 9,
            forall|r2: int, c2: int|
                #![trigger board@[idx(r2, c2)]]
                0 <= r2 < i && in_range(c2) && !is_empty(board@, r2, c2) ==> {
                    &&& 1 <= board@[idx(r2, c2)] <= 9
                    &&& valid_at(board@, board@[idx(r2, c2)], r2, c2)
                },
        decreases 9 - i,
    {
        let mut j: i32 = 0;
        while j < 9
            invariant
                0 <= i < 9,
                0 <= j <= 9,
                forall|r2: int, c2: int|
                    #![trigger board@[idx(r2, c2)]]
                    (0 <= r2 < i && in_range(c2) || r2 == i && 0 <= c2 < j) && !is_empty(
                        board@,
                        r2,
                        c2,
                    ) ==> {
                        &&& 1 <= board@[idx(r2, c2)] <= 9
                        &&& valid_at(board@, board@[idx(r2, c2)], r2, c2)
                    },
            decreases 9 - j,
        {
            let v = board[(i * 9 + j) as usize];
            if v != 0 {
                if v < 1 || v > 9 || !is_valid(board, v, i, j) {
                    assert(!is_empty(board@, i as int, j as int));
                    return false;
                }
            }
            j = j + 1;
        }
        i = i + 1;
    }
    true
}

/// The givens of a grid that has a valid completion do not clash.
proof fn lemma_completion_consistent(b: Seq<i32>, f: Seq<i32>)
    requires
        b.len() == 81,
        valid_completion(f, b),
    ensures
        givens_consistent(b),
{
    assert forall|r: int, c: int|
        in_range(r) && in_range(c) && !is_empty(b, r, c) implies {
        &&& 1 <= #[trigger] b[idx(r, c)] <= 9
        &&& valid_at(b, b[idx(r, c)], r, c)
    } by {
        assert(f[idx(r, c)] == b[idx(r, c)]);
        assert(valid_at(f, f[idx(r, c)], r, c));
        assert forall|r2: int, c2: int|
            in_range(r2) && in_range(c2) && peers(r, c, r2, c2) implies #[trigger] b[idx(r2, c2)]
            != b[idx(r, c)] by {
            if !is_empty(b, r2, c2) {
                assert(f[idx(r2, c2)] == b[idx(r2, c2)]);
            }
        }
    }
}

/// A grid in which every cell holds a digit that none of its peers holds.
pub open spec fn valid_grid(f: Seq<i32>) -> bool {
    &&& f.len() == 81
    &&& forall|r: int, c: int|
        #![trigger f[idx(r, c)]]
        in_range(r) && in_range(c) ==> {
            &&& 1 <= f[idx(r, c)] <= 9
            &&& valid_at(f, f[idx(r, c)], r, c)
        }
}

/// A valid grid that keeps every filled cell of `b`.
pub open spec fn valid_completion(f: Seq<i32>, b: Seq<i32>) -> bool {
    valid_grid(f) && extends(f, b)
}

/// Every filled cell of `b` holds a digit that none of its peers holds.
pub open spec fn givens_consistent(b: Seq<i32>) -> bool {
    forall|r: int, c: int|
        #![trigger b[idx(r, c)]]
        in_range(r) && in_range(c) && !is_empty(b, r, c) ==> {
            &&& 1 <= b[idx(r, c)] <= 9
            &&& valid_at(b, b[idx(r, c)], r, c)
        }
}

/// A fill of a grid whose givens do not clash is a valid grid.
pub proof fn lemma_fill_is_valid(b: Seq<i32>, f: Seq<i32>)
    requires
        b.len() == 81,
        givens_consistent(b),
        admissible(f, b),
    ensures
        valid_completion(f, b),
{
    assert forall|r: int, c: int| in_range(r) && in_range(c) implies {
        &&& 1 <= #[trigger] f[idx(r, c)] <= 9
        &&& valid_at(f, f[idx(r, c)], r, c)
    } by {
        if !is_empty(b, r, c) {
            assert(valid_at(b, b[idx(r, c)], r, c));
            assert forall|r2: int, c2: int|
                in_range(r2) && in_range(c2) && peers(r, c, r2, c2) implies #[trigger] f[idx(
                r2,
                c2,
            )] != f[idx(r, c)] by {
                if is_empty(b, r2, c2) {
                    assert(valid_at(f, f[idx(r2, c2)], r2, c2));
                    assert(peers(r2, c2, r, c));
                } else {
                    assert(b[idx(r2, c2)] != b[idx(r, c)]);
                }
            }
        }
    }
}

/// A grid that has a valid completion is solved, and what the solver
/// returns for it is itself a valid completion.
pub proof fn law_completable_is_solved(b: Seq<i32>, f: Seq<i32>)
    requires
        b.len() == 81,
        valid_completion(f, b),
    ensures
        solvable(b),
        fillable(b),
        forall|g: Seq<i32>| first_fill(g, b) ==> valid_completion(g, b),
{
    assert(admissible(f, b));
    lemma_completion_consistent(b, f);
    assert forall|g: Seq<i32>| first_fill(g, b) implies valid_completion(g, b) by {
        lemma_fill_is_valid(b, g);
    }
}

/// A grid with no valid completion is not solved, and where its givens do
/// not clash the search finds no fill either.
pub proof fn law_no_completion_unsolvable(b: Seq<i32>)
    requires
        b.len() == 81,
        forall|f: Seq<i32>| !valid_completion(f, b),
    ensures
        !solvable(b),
        givens_consistent(b) ==> !fillable(b),
{
    if givens_consistent(b) && fillable(b) {
        let f = choose|f: Seq<i32>| admissible(f, b);
        lemma_fill_is_valid(b, f);
    }
}

/// Clearing the non-given cells of a grid and then solving it gives a valid
/// completion of its givens, when they have one.
pub proof fn law_unsolve_then_solve(b: Seq<i32>, givens: Seq<bool>, f: Seq<i32>)
    requires
        b.len() == 81,
        givens.len() == 81,
        valid_completion(f, unsolved(b, givens)),
    ensures
        solvable(unsolved(b, givens)),
        fillable(unsolved(b, givens)),
        forall|g: Seq<i32>|
            first_fill(g, unsolved(b, givens)) ==> valid_completion(g, unsolved(b, givens)),
{
    law_completable_is_solved(unsolved(b, givens), f);
}

/// Clearing the non-given cells twice is the same as clearing them once.
pub proof fn law_unsolve_idempotent(b: Seq<i32>, givens: Seq<bool>)
    requires
        b.len() == givens.len(),
    ensures
        unsolved(unsolved(b, givens), givens) == unsolved(b, givens),
{
    assert(unsolved(unsolved(b, givens), givens) =~= unsolved(b, givens));
}

/// A grid has at most one first fill, so solving it twice gives the same
/// grid.
pub proof fn law_solve_deterministic(b: Seq<i32>, f: Seq<i32>, g: Seq<i32>)
    requires
        first_fill(f, b),
        first_fill(g, b),
    ensures
        f == g,
{
    assert(lex_le(f, g));
    assert(lex_le(g, f));
    if f != g {
        let k1 = choose|k: int|
            0 <= k < 81 && f[k] < g[k] && (forall|j: int| 0 <= j < k ==> f[j] == g[j]);
        let k2 = choose|k: int|
            0 <= k < 81 && g[k] < f[k] && (forall|j: int| 0 <= j < k ==> g[j] == f[j]);
        if k1 < k2 {
            assert(g[k1] == f[k1]);
        } else if k2 < k1 {
            assert(f[k2] == g[k2]);
        }
    }
}

} // verus!
