//! Tile permutations: well-formedness, the parity rule that tells solvable
//! starts from unsolvable ones, random solvable starts, and moves.
use vstd::prelude::*;
use rand::seq::SliceRandom;

verus! {

/// Which neighbour slides into the gap. `Up` slides the tile below the gap
/// upward, so the gap itself moves one row down.
#[derive(Clone, Copy, Debug, PartialEq, Eq, Structural)]
pub enum Direction {
    Up,
    Down,
    Left,
    Right,
}

impl Direction {
    /// The direction that undoes this one.
    pub open spec fn opposite(self) -> Direction {
        match self {
            Direction::Up => Direction::Down,
            Direction::Down => Direction::Up,
            Direction::Left => Direction::Right,
            Direction::Right => Direction::Left,
        }
    }

    /// Column and row offset by which the gap moves.
    pub open spec fn offset(self) -> (int, int) {
        match self {
            Direction::Up => (0, 1),
            Direction::Down => (0, -1),
            Direction::Left => (1, 0),
            Direction::Right => (-1, 0),
        }
    }
}

/// The tile value that marks the gap on a board of side `n`.
pub open spec fn blank_of(n: nat) -> nat {
    (n * n - 1) as nat
}

/// `s` holds each of `0..m` exactly once.
pub open spec fn is_perm(s: Seq<usize>, m: nat) -> bool {
    &&& s.len() == m
    &&& forall|i: int| 0 <= i < s.len() ==> s[i] < m
    &&& forall|v: usize| v < m ==> s.contains(v)
    &&& s.no_duplicates()
}

/// A tile sequence for a board of side `n`.
pub open spec fn valid_tiles(s: Seq<usize>, n: nat) -> bool {
    n >= 2 && n * n <= usize::MAX && is_perm(s, n * n)
}

/// The position that holds the gap.
pub open spec fn blank_index(s: Seq<usize>, n: nat) -> int {
    choose|i: int| 0 <= i < s.len() && s[i] == blank_of(n)
}

/// Number of entries of `s[from..]`, other than the gap, below `v`.
pub open spec fn smaller_after(s: Seq<usize>, from: int, v: usize, blank: nat) -> nat
    decreases s.len() - from,
{
    if from < 0 || from >= s.len() {
        0
    } else {
        (if s[from] != blank && s[from] < v { 1nat } else { 0nat })
            + smaller_after(s, from + 1, v, blank)
    }
}

/// Number of inversions among the entries of `s[from..]` that are not the gap.
pub open spec fn inversions_from(s: Seq<usize>, from: int, blank: nat) -> nat
    decreases s.len() - from,
{
    if from < 0 || from >= s.len() {
        0
    } else {
        (if s[from] != blank { smaller_after(s, from + 1, s[from], blank) } else { 0nat })
            + inversions_from(s, from + 1, blank)
    }
}

/// Number of pairs `i < j` of non-gap entries with `s[j] < s[i]`.
pub open spec fn inversions(s: Seq<usize>, n: nat) -> nat {
    inversions_from(s, 0, blank_of(n))
}

/// The parity rule: on an odd board the inversions are even; on an even board
/// the evenness of the gap's row counted from the bottom (from one) differs
/// from the evenness of the inversions.
pub open spec fn solvable(s: Seq<usize>, n: nat) -> bool {
    if n % 2 == 0 {
        let row_from_bottom = n - blank_index(s, n) / (n as int);
        (row_from_bottom % 2 == 0) != (inversions(s, n) % 2 == 0)
    } else {
        inversions(s, n) % 2 == 0
    }
}

/// The gap of a valid tile sequence stands at exactly one position.
pub proof fn lemma_blank_index(s: Seq<usize>, n: nat)
    requires
        valid_tiles(s, n),
    ensures
        0 <= blank_index(s, n) < s.len(),
        s[blank_index(s, n)] == blank_of(n),
        forall|i: int| 0 <= i < s.len() && s[i] == blank_of(n) ==> i == blank_index(s, n),
{
    assert(n * n >= 4) by (nonlinear_arith)
        requires
            n >= 2,
    ;
    let b = blank_of(n) as usize;
    assert(s.contains(b));
}

/// Rearranging a permutation keeps it a permutation.
pub proof fn lemma_perm_same_multiset(s: Seq<usize>, t: Seq<usize>, m: nat)
    requires
        is_perm(s, m),
        t.to_multiset() == s.to_multiset(),
    ensures
        is_perm(t, m),
{
    broadcast use vstd::seq_lib::to_multiset_contains;
    broadcast use vstd::seq_lib::to_multiset_len;

    vstd::seq_lib::to_multiset_len(s);
    vstd::seq_lib::to_multiset_len(t);
    assert forall|i: int| 0 <= i < t.len() implies t[i] < m by {
        assert(t.to_multiset().count(t[i]) > 0);
        assert(s.contains(t[i]));
    }
    assert forall|v: usize| v < m implies t.contains(v) by {
        assert(s.to_multiset().count(v) > 0);
    }
    s.lemma_multiset_has_no_duplicates();
    t.lemma_multiset_has_no_duplicates_conv();
}

/// The tiles in their home positions.
pub open spec fn identity(m: nat) -> Seq<usize> {
    Seq::new(m, |i: int| i as usize)
}

/// The tile sequence has every tile at home.
pub open spec fn all_home(s: Seq<usize>) -> bool {
    forall|i: int| 0 <= i < s.len() ==> s[i] == i
}

/// Column and row of position `p` on a board of side `n`.
pub open spec fn coords(p: int, n: nat) -> (int, int) {
    (p % (n as int), p / (n as int))
}

/// Where the gap goes from position `p` in direction `d`, if that stays on
/// the board.
pub open spec fn destination(p: int, n: nat, d: Direction) -> Option<int> {
    let (x, y) = coords(p, n);
    let (dx, dy) = d.offset();
    let (tx, ty) = (x + dx, y + dy);
    if 0 <= tx < n && 0 <= ty < n {
        Some(tx + ty * n)
    } else {
        None
    }
}

/// `s` with the entries at `i` and `j` exchanged.
pub open spec fn swapped(s: Seq<usize>, i: int, j: int) -> Seq<usize> {
    s.update(i, s[j]).update(j, s[i])
}

/// The tiles after a move in direction `d`; unchanged when the gap would
/// leave the board.
pub open spec fn after_move(s: Seq<usize>, n: nat, d: Direction) -> Seq<usize> {
    let p = blank_index(s, n);
    match destination(p, n, d) {
        Some(q) => swapped(s, p, q),
        None => s,
    }
}

/// The tile value that marks the gap on a board of side `n`.
pub fn blank_tile_num(n: usize) -> (r: usize)
    requires
        1 <= n,
        n * n <= usize::MAX,
    ensures
        r == blank_of(n as nat),
{
    assert(n * n >= 1) by (nonlinear_arith)
        requires
            n >= 1,
    ;
    n * n - 1
}

/// The position of the gap.
pub fn find_blank(n: usize, tiles: &Vec<usize>) -> (r: usize)
    requires
        valid_tiles(tiles@, n as nat),
    ensures
        r == blank_index(tiles@, n as nat),
{
    proof {
        lemma_blank_index(tiles@, n as nat);
    }
    let blank = blank_tile_num(n);
    let mut i: usize = 0;
    while i < tiles.len()
        invariant
            0 <= i <= tiles@.len(),
            valid_tiles(tiles@, n as nat),
            blank == blank_of(n as nat),
            forall|k: int| 0 <= k < i ==> tiles@[k] != blank,
            0 <= blank_index(tiles@, n as nat) < tiles@.len(),
            tiles@[blank_index(tiles@, n as nat)] == blank,
        decreases tiles@.len() - i,
    {
        if tiles[i] == blank {
            return i;
        }
        i += 1;
    }
    i
}

/// Tests the parity rule that separates solvable starts from the others.
pub fn is_solvable(n: usize, tiles: &Vec<usize>) -> (r: bool)
    requires
        valid_tiles(tiles@, n as nat),
    ensures
        r == solvable(tiles@, n as nat),
{
    let ghost s = tiles@;
    let ghost b = blank_of(n as nat);
    let blank = blank_tile_num(n);
    let mut even = true;
    let ghost mut count: nat = 0;
    let mut i: usize = 0;
    while i < tiles.len()
        invariant
            0 <= i <= s.len(),
            s == tiles@,
            blank == b,
            count + inversions_from(s, i as int, b) == inversions_from(s, 0, b),
            even == (count % 2 == 0),
        decreases s.len() - i,
    {
        let a = tiles[i];
        if a != blank {
            let ghost mut found: nat = 0;
            let mut j: usize = i + 1;
            while j < tiles.len()
                invariant
                    i < j <= s.len(),
                    s == tiles@,
                    a == s[i as int],
                    blank == b,
                    found + smaller_after(s, j as int, a, b) == smaller_after(s, i + 1, a, b),
                    even == ((count + found) % 2 == 0),
                decreases s.len() - j,
            {
                let c = tiles[j];
                if c != blank && c < a {
                    even = !even;
                    proof {
                        found = found + 1;
                    }
                }
                j += 1;
            }
            proof {
                count = count + found;
            }
        }
        i += 1;
    }
    if n % 2 == 0 {
        let p = find_blank(n, tiles);
        proof {
            lemma_blank_index(s, n as nat);
            assert(p / n < n) by (nonlinear_arith)
                requires
                    p < n * n,
                    n >= 2,
            ;
        }
        let row_from_bottom = n - p / n;
        (row_from_bottom % 2 == 0) != even
    } else {
        even
    }
}

/// The home arrangement is a permutation.
pub proof fn lemma_identity_is_perm(m: nat)
    requires
        m <= usize::MAX,
    ensures
        is_perm(identity(m), m),
        all_home(identity(m)),
{
    let s = identity(m);
    assert forall|v: usize| v < m implies s.contains(v) by {
        assert(s[v as int] == v);
    }
}

/// In the home arrangement no later entry is below an earlier one.
proof fn lemma_identity_smaller_after(m: nat, from: int, v: usize, b: nat)
    requires
        m <= usize::MAX,
        0 <= v < from,
    ensures
        smaller_after(identity(m), from, v, b) == 0,
    decreases m - from,
{
    if from < m {
        lemma_identity_smaller_after(m, from + 1, v, b);
    }
}

/// The home arrangement has no inversions.
proof fn lemma_identity_inversions_from(m: nat, from: int, b: nat)
    requires
        m <= usize::MAX,
        0 <= from,
    ensures
        inversions_from(identity(m), from, b) == 0,
    decreases m - from,
{
    if from < m {
        lemma_identity_smaller_after(m, from + 1, from as usize, b);
        lemma_identity_inversions_from(m, from + 1, b);
    }
}

/// The home arrangement passes the parity rule.
pub proof fn lemma_identity_solvable(n: nat)
    requires
        n >= 2,
        n * n <= usize::MAX,
    ensures
        valid_tiles(identity(n * n), n),
        solvable(identity(n * n), n),
{
    let m = n * n;
    let s = identity(m);
    lemma_identity_is_perm(m);
    lemma_identity_inversions_from(m, 0, blank_of(n));
    lemma_blank_index(s, n);
    assert(m >= 4) by (nonlinear_arith)
        requires
            n >= 2,
            m == n * n,
    ;
    assert(s[m - 1] == blank_of(n));
    assert(blank_index(s, n) == m - 1);
    assert((m - 1) / (n as int) == n - 1) by (nonlinear_arith)
        requires
            n >= 2,
            m == n * n,
    ;
}

/// Relies on `rand::seq::SliceRandom::shuffle` with the thread-local
/// generator: it only exchanges entries, so the result holds the same values
/// as many times each.
#[verifier::external_body]
fn shuffle(tiles: &mut Vec<usize>)
    ensures
        final(tiles)@.to_multiset() == old(tiles)@.to_multiset(),
{
    tiles.shuffle(&mut rand::thread_rng());
}

/// Draws arrangements at random until one passes the parity rule. The number
/// of draws is bounded so that the loop provably ends; half of all
/// arrangements pass, so the bound is never met in practice, and the home
/// arrangement, which passes, stands in if it is.
pub fn generate_tiles(n: usize) -> (r: Vec<usize>)
    requires
        n >= 2,
        n * n <= usize::MAX,
    ensures
        valid_tiles(r@, n as nat),
        solvable(r@, n as nat),
{
    let m = n * n;
    let mut home: Vec<usize> = Vec::new();
    let mut i: usize = 0;
    while i < m
        invariant
            0 <= i <= m,
            m == n * n,
            home@ == identity(i as nat),
        decreases m - i,
    {
        home.push(i);
        i += 1;
        proof {
            assert(home@ =~= identity(i as nat));
        }
    }
    proof {
        lemma_identity_solvable(n as nat);
    }
    let mut tiles = home.clone();
    let mut attempts: u64 = u64::MAX;
    while attempts > 0
        invariant
            valid_tiles(tiles@, n as nat),
            home@ == identity((n * n) as nat),
        decreases attempts,
    {
        let ghost before = tiles@;
        shuffle(&mut tiles);
        proof {
            lemma_perm_same_multiset(before, tiles@, (n * n) as nat);
        }
        if is_solvable(n, &tiles) {
            return tiles;
        }
        attempts -= 1;
    }
    home
}

/// Exchanges the gap with its neighbour in direction `d` and returns both
/// positions, or leaves the tiles alone and returns `None` when the gap
/// would leave the board.
pub fn apply_move(n: usize, tiles: &mut Vec<usize>, d: Direction) -> (r: Option<(usize, usize)>)
    requires
        valid_tiles(old(tiles)@, n as nat),
    ensures
        final(tiles)@ == after_move(old(tiles)@, n as nat, d),
        valid_tiles(final(tiles)@, n as nat),
        r == (match destination(blank_index(old(tiles)@, n as nat), n as nat, d) {
            Some(q) => Some((blank_index(old(tiles)@, n as nat) as usize, q as usize)),
            None => None::<(usize, usize)>,
        }),
        r matches Some((a, b)) ==> a < n * n && b < n * n,
        destination(blank_index(old(tiles)@, n as nat), n as nat, d) matches Some(q) ==> 0 <= q < n * n,
{
    let p = find_blank(n, tiles);
    proof {
        lemma_blank_index(tiles@, n as nat);
        assert(p / n < n && p % n < n) by (nonlinear_arith)
            requires
                p < n * n,
                n >= 2,
        ;
    }
    let x = p % n;
    let y = p / n;
    let (tx, ty): (usize, usize) = match d {
        Direction::Up => {
            if y + 1 >= n {
                return None;
            }
            (x, y + 1)
        },
        Direction::Down => {
            if y == 0 {
                return None;
            }
            (x, y - 1)
        },
        Direction::Left => {
            if x + 1 >= n {
                return None;
            }
            (x + 1, y)
        },
        Direction::Right => {
            if x == 0 {
                return None;
            }
            (x - 1, y)
        },
    };
    proof {
        assert(tx + ty * n < n * n) by (nonlinear_arith)
            requires
                tx < n,
                ty < n,
        ;
    }
    let q = tx + ty * n;
    let ghost before = tiles@;
    let a = tiles[p];
    let b = tiles[q];
    tiles.set(p, b);
    tiles.set(q, a);
    proof {
        assert(tiles@ =~= swapped(before, p as int, q as int));
        lemma_swap_keeps_perm(before, p as int, q as int, (n * n) as nat);
    }
    Some((p, q))
}

/// Exchanging two entries keeps a permutation a permutation.
pub proof fn lemma_swap_keeps_perm(s: Seq<usize>, i: int, j: int, m: nat)
    requires
        is_perm(s, m),
        0 <= i < s.len(),
        0 <= j < s.len(),
    ensures
        is_perm(swapped(s, i, j), m),
{
    let t = swapped(s, i, j);
    assert forall|v: usize| v < m implies t.contains(v) by {
        assert(s.contains(v));
        let k = choose|k: int| 0 <= k < s.len() && s[k] == v;
        if k == i {
            assert(t[j] == v);
        } else if k == j {
            assert(t[i] == v);
        } else {
            assert(t[k] == v);
        }
    }
}

/// A move followed by the opposite move restores the tiles, whenever the
/// first move stays on the board.
pub proof fn lemma_move_then_opposite(s: Seq<usize>, n: nat, d: Direction)
    requires
        valid_tiles(s, n),
        destination(blank_index(s, n), n, d) is Some,
    ensures
        destination(blank_index(after_move(s, n, d), n), n, d.opposite()) is Some,
        after_move(after_move(s, n, d), n, d.opposite()) == s,
{
    let p = blank_index(s, n);
    let q = destination(p, n, d)->Some_0;
    lemma_blank_index(s, n);
    let t = after_move(s, n, d);
    assert(t == swapped(s, p, q));
    let (x, y) = coords(p, n);
    let (dx, dy) = d.offset();
    let (tx, ty) = (x + dx, y + dy);
    vstd::arithmetic::div_mod::lemma_fundamental_div_mod(p, n as int);
    assert(0 <= x < n && 0 <= y) by {
        vstd::arithmetic::div_mod::lemma_mod_bound(p, n as int);
        vstd::arithmetic::div_mod::lemma_div_pos_is_pos(p, n as int);
    }
    assert(p == x + y * n) by (nonlinear_arith)
        requires
            p == (n as int) * (p / (n as int)) + p % (n as int),
            x == p % (n as int),
            y == p / (n as int),
    ;
    assert(q < n * n) by (nonlinear_arith)
        requires
            q == tx + ty * n,
            0 <= tx < n,
            0 <= ty < n,
    ;
    vstd::arithmetic::div_mod::lemma_fundamental_div_mod_converse(q, n as int, ty, tx);
    lemma_swap_keeps_perm(s, p, q, n * n);
    lemma_blank_index(t, n);
    assert(t[q] == blank_of(n));
    assert(blank_index(t, n) == q);
    assert(destination(q, n, d.opposite()) == Some(p));
    assert(swapped(t, q, p) =~= s);
}

/// Tells whether `tiles` holds each of `0..m` exactly once.
pub fn is_permutation(tiles: &Vec<usize>, m: usize) -> (r: bool)
    ensures
        r == is_perm(tiles@, m as nat),
{
    if tiles.len() != m {
        return false;
    }
    let mut seen: Vec<bool> = Vec::new();
    let mut v: usize = 0;
    while v < m
        invariant
            0 <= v <= m,
            seen@ == Seq::new(v as nat, |k: int| false),
        decreases m - v,
    {
        seen.push(false);
        v += 1;
        proof {
            assert(seen@ =~= Seq::new(v as nat, |k: int| false));
        }
    }
    let ghost s = tiles@;
    let mut i: usize = 0;
    while i < m
        invariant
            0 <= i <= m,
            s == tiles@,
            s.len() == m,
            seen@.len() == m,
            forall|k: int| 0 <= k < i ==> s[k] < m,
            forall|u: int| 0 <= u < m ==> (seen@[u] <==> exists|k: int| 0 <= k < i && s[k] == u),
            forall|k: int, l: int| 0 <= k < l < i ==> s[k] != s[l],
        decreases m - i,
    {
        let t = tiles[i];
        if t >= m {
            return false;
        }
        if seen[t] {
            proof {
                let k = choose|k: int| 0 <= k < i && s[k] == t;
                assert(s[k] == s[i as int]);
            }
            return false;
        }
        seen.set(t, true);
        proof {
            assert forall|u: int| 0 <= u < m implies (seen@[u] <==> exists|k: int|
                0 <= k < i + 1 && s[k] == u) by {
                if u == t {
                    assert(s[i as int] == u);
                } else if seen@[u] {
                    let k = choose|k: int| 0 <= k < i && s[k] == u;
                    assert(0 <= k < i + 1 && s[k] == u);
                }
            }
        }
        i += 1;
    }
    let mut u: usize = 0;
    while u < m
        invariant
            0 <= u <= m,
            s == tiles@,
            s.len() == m,
            seen@.len() == m,
            forall|k: int| 0 <= k < m ==> s[k] < m,
            forall|w: int| 0 <= w < m ==> (seen@[w] <==> exists|k: int| 0 <= k < m && s[k] == w),
            forall|k: int, l: int| 0 <= k < l < m ==> s[k] != s[l],
            forall|w: usize| w < u ==> s.contains(w),
        decreases m - u,
    {
        if !seen[u] {
            assert(!s.contains(u));
            return false;
        }
        proof {
            let k = choose|k: int| 0 <= k < m && s[k] == u;
            assert(s[k] == u);
        }
        u += 1;
    }
    true
}

/// Every tile is at home exactly when the arrangement is the home one.
pub proof fn lemma_solved_iff_identity(s: Seq<usize>, m: nat)
    requires
        s.len() == m,
        m <= usize::MAX,
    ensures
        all_home(s) <==> s == identity(m),
{
    if all_home(s) {
        assert(s =~= identity(m));
    }
}

/// A move keeps a valid arrangement valid, whether or not it stays on the
/// board.
pub proof fn lemma_move_keeps_valid(s: Seq<usize>, n: nat, d: Direction)
    requires
        valid_tiles(s, n),
    ensures
        valid_tiles(after_move(s, n, d), n),
{
    let p = blank_index(s, n);
    lemma_blank_index(s, n);
    if let Some(q) = destination(p, n, d) {
        let (x, y) = coords(p, n);
        let (dx, dy) = d.offset();
        let (tx, ty) = (x + dx, y + dy);
        assert(q < n * n) by (nonlinear_arith)
            requires
                q == tx + ty * n,
                0 <= tx < n,
                0 <= ty < n,
        ;
        lemma_swap_keeps_perm(s, p, q, n * n);
    }
}

/// The tiles after the moves in `ds`, one after another.
pub open spec fn after_moves(s: Seq<usize>, n: nat, ds: Seq<Direction>) -> Seq<usize>
    decreases ds.len(),
{
    if ds.len() == 0 {
        s
    } else {
        after_move(after_moves(s, n, ds.drop_last()), n, ds.last())
    }
}

/// However many moves are made, the tiles stay a permutation of
/// `0..n * n`: none is lost or doubled.
pub proof fn lemma_moves_keep_valid(s: Seq<usize>, n: nat, ds: Seq<Direction>)
    requires
        valid_tiles(s, n),
    ensures
        valid_tiles(after_moves(s, n, ds), n),
    decreases ds.len(),
{
    if ds.len() > 0 {
        lemma_moves_keep_valid(s, n, ds.drop_last());
        lemma_move_keeps_valid(after_moves(s, n, ds.drop_last()), n, ds.last());
    }
}

} // verus!
