use vstd::prelude::*;
use vstd::seq_lib::to_multiset_contains;

use crate::rng::{random_below, shuffle_indices};
use crate::geometry::{enclose, fits_usize, opposite_of, Cut, Dims, Rect};

verus! {

/// A token of a postfix expression: an operand naming a box of the box table,
/// or an operator joining the two subexpressions before it.
#[derive(Copy, Clone, Debug, PartialEq, Eq, Structural)]
pub enum TreeItem {
    Rect(usize),
    Cut(Cut),
}

impl TreeItem {
    pub fn is_rect(&self) -> (r: bool)
        ensures
            r == (*self is Rect),
    {
        match self {
            TreeItem::Rect(_) => true,
            _ => false,
        }
    }

    pub fn is_cut(&self) -> (r: bool)
        ensures
            r == (*self is Cut),
    {
        match self {
            TreeItem::Cut(_) => true,
            _ => false,
        }
    }
}

/// Where the operators stand: `true` at each operator token.
pub open spec fn kinds(s: Seq<TreeItem>) -> Seq<bool> {
    s.map_values(|t: TreeItem| t is Cut)
}

/// The number of operators in a kind pattern.
pub open spec fn cut_count(k: Seq<bool>) -> int
    decreases k.len(),
{
    if k.len() == 0 {
        0
    } else {
        cut_count(k.drop_last()) + if k.last() { 1int } else { 0int }
    }
}

/// The ballot property: every nonempty prefix holds more operands than
/// operators, and the whole expression holds exactly one operand more.
pub open spec fn skewed(k: Seq<bool>) -> bool {
    &&& k.len() > 0
    &&& forall|j: int| 1 <= j <= k.len() ==> 2 * #[trigger] cut_count(k.take(j)) < j
    &&& 2 * cut_count(k) + 1 == k.len()
}

/// Positions `j` and `j + 1` hold the same operator.
pub open spec fn clash(s: Seq<TreeItem>, j: int) -> bool {
    s[j] is Cut && s[j] == s[j + 1]
}

/// Normalization: no two adjacent operators have the same orientation.
pub open spec fn normalized(s: Seq<TreeItem>) -> bool {
    forall|j: int| 0 <= j && j + 1 < s.len() ==> !#[trigger] clash(s, j)
}

/// The maximal runs of operators, as half-open ranges, left to right.
pub open spec fn chains_of(k: Seq<bool>) -> Seq<(int, int)>
    decreases k.len(),
{
    if k.len() == 0 {
        seq![]
    } else {
        let p = chains_of(k.drop_last());
        let n = k.len() as int;
        if !k.last() {
            p
        } else if n >= 2 && k[n - 2] {
            p.update(p.len() - 1, (p.last().0, n))
        } else {
            p.push((n - 1, n))
        }
    }
}

/// `(a, b)` is a maximal run of operators of `k`.
pub open spec fn is_chain(k: Seq<bool>, a: int, b: int) -> bool {
    &&& 0 <= a < b <= k.len()
    &&& forall|t: int| a <= t < b ==> #[trigger] k[t]
    &&& a == 0 || !k[a - 1]
    &&& b == k.len() || !k[b]
}

pub open spec fn usize_pairs(v: Seq<(usize, usize)>) -> Seq<(int, int)> {
    v.map_values(|p: (usize, usize)| (p.0 as int, p.1 as int))
}

pub open spec fn swapped(s: Seq<TreeItem>, a: int, b: int) -> Seq<TreeItem> {
    s.update(a, s[b]).update(b, s[a])
}

/// `p` and `q` hold the `a`-th operand and the operand right after it.
pub open spec fn operand_pair(s: Seq<TreeItem>, a: int, p: int, q: int) -> bool {
    &&& 0 <= p < q < s.len()
    &&& s[p] is Rect
    &&& s[q] is Rect
    &&& p - cut_count(kinds(s).take(p)) == a
    &&& forall|t: int| p < t < q ==> (#[trigger] s[t]) is Cut
}

/// `t` is `s` with each operator in `[a, b)` turned to the opposite orientation.
pub open spec fn flipped_range(s: Seq<TreeItem>, t: Seq<TreeItem>, a: int, b: int) -> bool {
    &&& t.len() == s.len()
    &&& forall|x: int|
        0 <= x < s.len() ==> #[trigger] t[x] == if a <= x < b {
            match s[x] {
                TreeItem::Cut(c) => TreeItem::Cut(opposite_of(c)),
                TreeItem::Rect(i) => TreeItem::Rect(i),
            }
        } else {
            s[x]
        }
}

pub proof fn lemma_cut_count_bounds(k: Seq<bool>)
    ensures
        0 <= cut_count(k) <= k.len(),
    decreases k.len(),
{
    if k.len() > 0 {
        lemma_cut_count_bounds(k.drop_last());
    }
}

pub proof fn lemma_cut_count_step(k: Seq<bool>, j: int)
    requires
        0 <= j < k.len(),
    ensures
        cut_count(k.take(j + 1)) == cut_count(k.take(j)) + if k[j] { 1int } else { 0int },
{
    assert(k.take(j + 1).drop_last() =~= k.take(j));
}

/// The operators of a concatenation are those of its parts.
pub proof fn lemma_cut_count_concat(a: Seq<bool>, b: Seq<bool>)
    ensures
        cut_count(a + b) == cut_count(a) + cut_count(b),
    decreases b.len(),
{
    if b.len() == 0 {
        assert(a + b =~= a);
    } else {
        assert((a + b).drop_last() =~= a + b.drop_last());
        lemma_cut_count_concat(a, b.drop_last());
    }
}

/// Every range that `chains_of` lists is a maximal run, and they come in order.
pub proof fn lemma_chains_of(k: Seq<bool>)
    ensures
        forall|j: int| 0 <= j < chains_of(k).len() ==> is_chain(k, #[trigger] chains_of(k)[j].0, chains_of(k)[j].1),
        forall|j: int| 0 <= j && j + 1 < chains_of(k).len() ==> #[trigger] chains_of(k)[j].1 < chains_of(k)[j + 1].0,
        k.len() > 0 && k.last() ==> chains_of(k).len() > 0 && chains_of(k).last().1 == k.len(),
    decreases k.len(),
{
    if k.len() > 0 {
        let q = k.drop_last();
        lemma_chains_of(q);
        let p = chains_of(q);
        let n = k.len() as int;
        let c = chains_of(k);
        assert forall|t: int| 0 <= t < n - 1 implies q[t] == k[t] by {}
        if !k.last() {
            assert forall|j: int| 0 <= j < c.len() implies is_chain(k, #[trigger] c[j].0, c[j].1) by {
                assert(is_chain(q, p[j].0, p[j].1));
            }
        } else if n >= 2 && k[n - 2] {
            let last = p.len() - 1;
            assert forall|j: int| 0 <= j < c.len() implies is_chain(k, #[trigger] c[j].0, c[j].1) by {
                assert(is_chain(q, p[j].0, p[j].1));
                if j < last {
                    assert(p[j].1 < p[j + 1].0);
                    assert(p[j].1 < p[last].0) by {
                        if j + 1 < last {
                            assert(p[j + 1].1 < p[last].0);
                            assert(is_chain(q, p[j + 1].0, p[j + 1].1));
                        }
                    }
                    assert(is_chain(q, p[last].0, p[last].1));
                }
            }
            assert forall|j: int| 0 <= j && j + 1 < c.len() implies #[trigger] c[j].1 < c[j + 1].0 by {
                assert(p[j].1 < p[j + 1].0);
            }
        } else {
            assert forall|j: int| 0 <= j < c.len() implies is_chain(k, #[trigger] c[j].0, c[j].1) by {
                if j < p.len() {
                    assert(is_chain(q, p[j].0, p[j].1));
                    assert(q[p[j].1 - 1]);
                }
            }
            assert forall|j: int| 0 <= j && j + 1 < c.len() implies #[trigger] c[j].1 < c[j + 1].0 by {
                if j + 1 < p.len() {
                    assert(p[j].1 < p[j + 1].0);
                } else {
                    assert(is_chain(q, p[j].0, p[j].1));
                    assert(q[p[j].1 - 1]);
                }
            }
        }
    }
}

/// Positions `i` and `i + 1` hold one operand and one operator.
pub open spec fn boundary(s: Seq<TreeItem>, i: int) -> bool {
    0 <= i && i + 1 < s.len() && (s[i] is Cut) != (s[i + 1] is Cut)
}

/// No two adjacent tokens in positions `a` through `b` are equal.
pub open spec fn distinct_adjacent(s: Seq<TreeItem>, a: int, b: int) -> bool {
    forall|j: int| a <= j < b ==> #[trigger] s[j] != s[j + 1]
}

/// M3 takes the pair at `i` and `i + 1`: one operand and one operator, passing
/// the ballot test, with no equal neighbours around the pair before or after
/// the exchange.
pub open spec fn m3_accepts(s: Seq<TreeItem>, i: int) -> bool {
    let lo = window_lo(i);
    let hi = window_hi(i + 1, s.len() as int);
    &&& boundary(s, i)
    &&& 2 * ballot_at(kinds(s), i + 1).1 < i
    &&& distinct_adjacent(s, lo, hi)
    &&& distinct_adjacent(swapped(s, i, i + 1), lo, hi)
}

pub open spec fn window_lo(a: int) -> int {
    if a > 0 { a - 1 } else { 0 }
}

pub open spec fn window_hi(b: int, n: int) -> int {
    if b + 1 < n { b + 1 } else { n - 1 }
}

/// Exchanging a pair leaves the operator count of every prefix that holds
/// both or neither of its positions as it was.
pub proof fn lemma_swap_counts(k: Seq<bool>, i: int, j: int)
    requires
        0 <= i && i + 1 < k.len(),
        0 <= j <= k.len(),
        j != i + 1,
    ensures
        cut_count(k.update(i, k[i + 1]).update(i + 1, k[i]).take(j)) == cut_count(k.take(j)),
    decreases j,
{
    let k2 = k.update(i, k[i + 1]).update(i + 1, k[i]);
    if j <= i {
        assert(k2.take(j) =~= k.take(j));
    } else if j == i + 2 {
        lemma_swap_counts(k, i, i);
        lemma_cut_count_step(k, i);
        lemma_cut_count_step(k, i + 1);
        lemma_cut_count_step(k2, i);
        lemma_cut_count_step(k2, i + 1);
    } else {
        lemma_swap_counts(k, i, j - 1);
        lemma_cut_count_step(k, j - 1);
        lemma_cut_count_step(k2, j - 1);
    }
}

/// Exchanging a boundary pair that passes the ballot test, with no equal
/// neighbours left around it, keeps the expression decodable and normalized.
proof fn lemma_boundary_swap_valid(s: Seq<TreeItem>, i: int, s2: Seq<TreeItem>)
    requires
        skewed(kinds(s)),
        normalized(s),
        boundary(s, i),
        2 * ballot_at(kinds(s), i + 1).1 < i,
        s2 == swapped(s, i, i + 1),
        distinct_adjacent(s2, window_lo(i), window_hi(i + 1, s.len() as int)),
    ensures
        skewed(kinds(s2)),
        normalized(s2),
{
    let k = kinds(s);
    let k2 = kinds(s2);
    assert(k2 =~= k.update(i, k[i + 1]).update(i + 1, k[i]));
    lemma_cut_count_step(k, i);
    lemma_cut_count_step(k, i + 1);
    lemma_cut_count_step(k2, i);
    lemma_swap_counts(k, i, i);
    assert forall|j: int| 1 <= j <= k2.len() implies 2 * #[trigger] cut_count(k2.take(j)) < j by {
        if j != i + 1 {
            lemma_swap_counts(k, i, j);
            assert(2 * cut_count(k.take(j)) < j);
        } else if i > 0 {
            assert(2 * cut_count(k.take(i)) < i);
        }
    }
    lemma_swap_counts(k, i, k.len() as int);
    assert(k2.take(k2.len() as int) =~= k2);
    assert(k.take(k.len() as int) =~= k);
    assert forall|x: int| 0 <= x && x + 1 < s2.len() implies !#[trigger] clash(s2, x) by {
        if window_lo(i) <= x < window_hi(i + 1, s.len() as int) {
            assert(s2[x] != s2[x + 1]);
        } else {
            assert(!clash(s, x));
        }
    }
}

/// `t` is `s` with the `a`-th operand (at `p`) and the next one (at `q`)
/// exchanged.
pub open spec fn exchanged_operands(s: Seq<TreeItem>, t: Seq<TreeItem>, a: int, p: int, q: int) -> bool {
    operand_pair(s, a, p, q) && t == swapped(s, p, q)
}

/// `t` is `s` with every operator of its `n`-th chain flipped.
pub open spec fn flipped_chain(s: Seq<TreeItem>, t: Seq<TreeItem>, n: int) -> bool {
    let c = chains_of(kinds(s));
    0 <= n < c.len() && flipped_range(s, t, c[n].0, c[n].1)
}

/// `t` is an outcome of one random move on `s`: an M1 exchange, an M2 flip,
/// an M3 exchange or M3 finding none, or no change when the drawn move has
/// no legal argument.
pub open spec fn one_move(s: Seq<TreeItem>, t: Seq<TreeItem>) -> bool {
    ||| exists|a: int, p: int, q: int| #[trigger] exchanged_operands(s, t, a, p, q)
    ||| exists|n: int| #[trigger] flipped_chain(s, t, n)
    ||| exists|i: int| #[trigger] m3_accepts(s, i) && t == swapped(s, i, i + 1)
    ||| t == s && forall|i: int| !#[trigger] m3_accepts(s, i)
    ||| t == s && (s.len() - cut_count(kinds(s)) < 2 || chains_of(kinds(s)).len() == 0)
}

/// Step `j` of `path` is one random move.
pub open spec fn step_ok(path: Seq<Seq<TreeItem>>, j: int) -> bool {
    one_move(path[j], path[j + 1])
}

/// `path` leads from `s` to `t` in `n` random moves.
pub open spec fn move_path(path: Seq<Seq<TreeItem>>, s: Seq<TreeItem>, t: Seq<TreeItem>, n: nat) -> bool {
    &&& path.len() == n + 1
    &&& path[0] == s
    &&& path[n as int] == t
    &&& forall|j: int| 0 <= j < n ==> #[trigger] step_ok(path, j)
}

/// `t` is an outcome of `n` random moves in a row on `s`.
pub open spec fn moves(s: Seq<TreeItem>, t: Seq<TreeItem>, n: nat) -> bool {
    exists|path: Seq<Seq<TreeItem>>| #[trigger] move_path(path, s, t, n)
}

/// One step of the postfix evaluator: an operand pushes its box; an operator
/// replaces the two topmost boxes by their enclosing box.
pub open spec fn step(st: Seq<Dims>, t: TreeItem, rects: Seq<Rect>) -> Seq<Dims> {
    match t {
        TreeItem::Rect(i) => st.push(rects[i as int]@),
        TreeItem::Cut(c) => if st.len() >= 2 {
            st.take(st.len() - 2).push(enclose(st[st.len() - 2], st[st.len() - 1], c))
        } else {
            st
        },
    }
}

/// The evaluator's stack after reading `s` from left to right, starting from `st`.
pub open spec fn run(st: Seq<Dims>, s: Seq<TreeItem>, rects: Seq<Rect>) -> Seq<Dims>
    decreases s.len(),
{
    if s.len() == 0 {
        st
    } else {
        run(step(st, s[0], rects), s.drop_first(), rects)
    }
}

/// Every operand names a box of the table.
pub open spec fn operands_in(s: Seq<TreeItem>, n: int) -> bool {
    forall|j: int| 0 <= j < s.len() ==> match #[trigger] s[j] {
        TreeItem::Rect(i) => i < n,
        TreeItem::Cut(_) => true,
    }
}

/// Every box that the evaluator builds has dimensions that fit a `usize`.
pub open spec fn evaluation_fits(s: Seq<TreeItem>, rects: Seq<Rect>) -> bool {
    forall|j: int, x: int|
        0 <= j <= s.len() && 0 <= x < run(seq![], s.take(j), rects).len() ==> fits_usize(
            #[trigger] run(seq![], s.take(j), rects)[x],
        )
}

pub open spec fn dims_of(v: Seq<Rect>) -> Seq<Dims> {
    v.map_values(|r: Rect| r@)
}

pub proof fn lemma_run_push(st: Seq<Dims>, s: Seq<TreeItem>, t: TreeItem, rects: Seq<Rect>)
    ensures
        run(st, s.push(t), rects) == step(run(st, s, rects), t, rects),
    decreases s.len(),
{
    if s.len() == 0 {
        assert(seq![t].drop_first() =~= Seq::<TreeItem>::empty());
        assert(s.push(t) =~= seq![t]);
        assert(run(st, seq![t], rects) == run(step(st, t, rects), seq![t].drop_first(), rects));
    } else {
        assert(s.push(t).drop_first() =~= s.drop_first().push(t));
        assert(s.push(t)[0] == s[0]);
        lemma_run_push(step(st, s[0], rects), s.drop_first(), t, rects);
    }
}

/// Reading `s + u` is reading `s`, then `u`.
pub proof fn lemma_run_concat(st: Seq<Dims>, s: Seq<TreeItem>, u: Seq<TreeItem>, rects: Seq<Rect>)
    ensures
        run(st, s + u, rects) == run(run(st, s, rects), u, rects),
    decreases s.len(),
{
    if s.len() == 0 {
        assert(s + u =~= u);
    } else {
        assert((s + u).drop_first() =~= s.drop_first() + u);
        lemma_run_concat(step(st, s[0], rects), s.drop_first(), u, rects);
    }
}

/// On a prefix of a decodable expression the stack holds one box per operand
/// not yet consumed by an operator.
pub proof fn lemma_stack_height(s: Seq<TreeItem>, rects: Seq<Rect>, j: int)
    requires
        skewed(kinds(s)),
        0 <= j <= s.len(),
    ensures
        run(seq![], s.take(j), rects).len() == j - 2 * cut_count(kinds(s).take(j)),
    decreases j,
{
    let k = kinds(s);
    if j == 0 {
        assert(k.take(0) =~= Seq::<bool>::empty());
    } else {
        lemma_stack_height(s, rects, j - 1);
        assert(s.take(j) =~= s.take(j - 1).push(s[j - 1]));
        lemma_run_push(seq![], s.take(j - 1), s[j - 1], rects);
        lemma_cut_count_step(k, j - 1);
    }
}

/// The running counts `(operands, operators)` up to and including position `j`.
pub open spec fn ballot_at(k: Seq<bool>, j: int) -> (int, int) {
    (j + 1 - cut_count(k.take(j + 1)), cut_count(k.take(j + 1)))
}

/// A Normalized Polish Expression: the postfix form of a slicing tree, with
/// the running operand and operator counts of each prefix.
#[derive(Clone, Debug, PartialEq, Eq)]
pub struct NPE {
    pub expr: Vec<TreeItem>,
    pub ballot: Vec<(usize, usize)>,
}

impl NPE {
    pub open spec fn kinds(&self) -> Seq<bool> {
        kinds(self.expr@)
    }

    /// The ballot vector holds the running counts of the expression.
    pub open spec fn ballot_ok(&self) -> bool {
        &&& self.ballot@.len() == self.expr@.len()
        &&& forall|j: int|
            0 <= j < self.expr@.len() ==> (#[trigger] self.ballot@[j].0 as int, self.ballot@[j].1 as int)
                == ballot_at(self.kinds(), j)
    }

    /// Decodable as a unique slicing tree, with its ballot up to date.
    pub open spec fn valid(&self) -> bool {
        &&& skewed(self.kinds())
        &&& normalized(self.expr@)
        &&& self.ballot_ok()
    }

    pub open spec fn operand_count(&self) -> int {
        self.expr@.len() - cut_count(self.kinds())
    }

    /// Builds the expression and its running counts.
    pub fn new(expr: Vec<TreeItem>) -> (r: NPE)
        requires
            expr@.len() > 0,
        ensures
            r.expr@ == expr@,
            r.ballot_ok(),
    {
        let mut ballot: Vec<(usize, usize)> = Vec::new();
        let n = expr.len();
        while ballot.len() < n
            invariant
                ballot@.len() <= n,
            decreases n - ballot@.len(),
        {
            ballot.push((0, 0));
        }
        let mut new = NPE { expr, ballot };
        new.calculate_ballot();
        new
    }

    /// Recomputes the running counts from the expression.
    pub fn calculate_ballot(&mut self)
        requires
            old(self).expr@.len() > 0,
            old(self).ballot@.len() == old(self).expr@.len(),
        ensures
            final(self).expr == old(self).expr,
            final(self).ballot_ok(),
    {
        let ghost k = self.kinds();
        proof {
            lemma_cut_count_step(k, 0);
            assert(k.take(0) =~= Seq::<bool>::empty());
        }
        if self.expr[0].is_cut() {
            self.ballot.set(0, (0, 1));
        } else {
            self.ballot.set(0, (1, 0));
        }
        let n = self.expr.len();
        let mut i: usize = 1;
        while i < n
            invariant
                1 <= i <= n,
                n == self.expr@.len(),
                k == self.kinds(),
                self.expr == old(self).expr,
                self.ballot@.len() == n,
                forall|j: int|
                    0 <= j < i ==> (#[trigger] self.ballot@[j].0 as int, self.ballot@[j].1 as int)
                        == ballot_at(k, j),
            decreases n - i,
        {
            proof {
                lemma_cut_count_step(k, i as int);
                lemma_cut_count_bounds(k.take(i as int + 1));
            }
            let (a, b) = self.ballot[i - 1];
            if self.expr[i].is_rect() {
                self.ballot.set(i, (a + 1, b));
            } else {
                self.ballot.set(i, (a, b + 1));
            }
            i += 1;
        }
    }

    /// The number of operators among the first `k` tokens.
    pub fn number_operators(&self, k: usize) -> (r: usize)
        requires
            k <= self.expr@.len(),
        ensures
            r == cut_count(self.kinds().take(k as int)),
    {
        let ghost ks = self.kinds();
        let mut count: usize = 0;
        let mut i: usize = 0;
        proof {
            assert(ks.take(0) =~= Seq::<bool>::empty());
        }
        while i < k
            invariant
                i <= k <= self.expr@.len(),
                ks == self.kinds(),
                count == cut_count(ks.take(i as int)),
            decreases k - i,
        {
            proof {
                lemma_cut_count_step(ks, i as int);
                lemma_cut_count_bounds(ks.take(i as int));
            }
            if self.expr[i].is_cut() {
                count += 1;
            }
            i += 1;
        }
        count
    }

    pub fn count_operators(&self) -> (r: usize)
        ensures
            r == cut_count(self.kinds()),
    {
        let r = self.number_operators(self.expr.len());
        proof {
            assert(self.kinds().take(self.expr@.len() as int) =~= self.kinds());
        }
        r
    }

    pub fn count_operands(&self) -> (r: usize)
        ensures
            r == self.operand_count(),
    {
        let c = self.count_operators();
        proof {
            lemma_cut_count_bounds(self.kinds());
        }
        self.expr.len() - c
    }
}

impl NPE {
    /// Exchanges the tokens at `a` and `b`.
    pub fn swap(&mut self, a: usize, b: usize)
        requires
            a < old(self).expr@.len(),
            b < old(self).expr@.len(),
        ensures
            final(self).expr@ == swapped(old(self).expr@, a as int, b as int),
            final(self).ballot == old(self).ballot,
    {
        let x = self.expr[a];
        let y = self.expr[b];
        self.expr.set(a, y);
        self.expr.set(b, x);
    }

    /// The maximal runs of operators, as half-open ranges, left to right.
    /// The result depends on the token kinds alone, so asking again on an
    /// unchanged expression lists the same ranges in the same order.
    pub fn chains(&self) -> (r: Vec<(usize, usize)>)
        ensures
            usize_pairs(r@) == chains_of(self.kinds()),
            forall|j: int|
                0 <= j < r@.len() ==> is_chain(self.kinds(), #[trigger] r@[j].0 as int, r@[j].1 as int),
            forall|j: int| 0 <= j && j + 1 < r@.len() ==> #[trigger] r@[j].1 < r@[j + 1].0,
    {
        let ghost ks = self.kinds();
        let n = self.expr.len();
        let mut r: Vec<(usize, usize)> = Vec::new();
        let mut i: usize = 0;
        proof {
            assert(ks.take(0) =~= Seq::<bool>::empty());
            assert(usize_pairs(r@) =~= seq![]);
        }
        while i < n
            invariant
                i <= n == self.expr@.len(),
                ks == self.kinds(),
                usize_pairs(r@) == chains_of(ks.take(i as int)),
            decreases n - i,
        {
            let ghost pre = ks.take(i as int);
            let ghost cur = ks.take(i as int + 1);
            proof {
                assert(cur.drop_last() =~= pre);
                lemma_chains_of(pre);
            }
            if self.expr[i].is_cut() {
                if i > 0 && self.expr[i - 1].is_cut() {
                    proof {
                        assert(pre.last() == ks[i - 1]);
                    }
                    let last = r.len() - 1;
                    let (a, _) = r[last];
                    r.set(last, (a, i + 1));
                    proof {
                        assert(usize_pairs(r@) =~= chains_of(cur));
                    }
                } else {
                    r.push((i, i + 1));
                    proof {
                        assert(usize_pairs(r@) =~= chains_of(cur));
                    }
                }
            }
            i += 1;
        }
        proof {
            assert(ks.take(n as int) =~= ks);
            lemma_chains_of(ks);
            assert forall|j: int| 0 <= j < r@.len() implies is_chain(ks, #[trigger] r@[j].0 as int, r@[j].1 as int) by {
                assert(usize_pairs(r@)[j] == chains_of(ks)[j]);
            }
            assert forall|j: int| 0 <= j && j + 1 < r@.len() implies #[trigger] r@[j].1 < r@[j + 1].0 by {
                assert(usize_pairs(r@)[j] == chains_of(ks)[j]);
                assert(usize_pairs(r@)[j + 1] == chains_of(ks)[j + 1]);
            }
        }
        r
    }

    pub fn number_chains(&self) -> (r: usize)
        ensures
            r == chains_of(self.kinds()).len(),
    {
        let c = self.chains();
        c.len()
    }

    /// The `n`-th maximal run of operators.
    pub fn nth_chain(&self, n: usize) -> (r: (usize, usize))
        requires
            n < chains_of(self.kinds()).len(),
        ensures
            (r.0 as int, r.1 as int) == chains_of(self.kinds())[n as int],
    {
        let c = self.chains();
        c[n]
    }
}

impl NPE {
    /// Move M1: exchanges the `a`-th operand with the operand that follows it.
    pub fn m1(&mut self, a: usize)
        requires
            old(self).valid(),
            a + 1 < old(self).operand_count(),
        ensures
            final(self).valid(),
            exists|p: int, q: int|
                operand_pair(old(self).expr@, a as int, p, q) && final(self).expr@ == swapped(
                    old(self).expr@,
                    p,
                    q,
                ),
            final(self).kinds() == old(self).kinds(),
            chains_of(final(self).kinds()) == chains_of(old(self).kinds()),
            forall|t: int|
                0 <= t < old(self).expr@.len() && (#[trigger] old(self).expr@[t]) is Cut
                    ==> final(self).expr@[t] == old(self).expr@[t],
    {
        let ghost s = self.expr@;
        let ghost ks = self.kinds();
        let n = self.expr.len();
        let mut i: usize = 0;
        let mut cnt: usize = 0;
        proof {
            assert(ks.take(0) =~= Seq::<bool>::empty());
        }
        while i < n && !(self.expr[i].is_rect() && cnt == a)
            invariant
                i <= n == s.len(),
                self.expr@ == s,
                ks == kinds(s),
                cnt <= a,
                cnt == i - cut_count(ks.take(i as int)),
            decreases n - i,
        {
            proof {
                lemma_cut_count_step(ks, i as int);
            }
            if self.expr[i].is_rect() {
                cnt += 1;
            }
            i += 1;
        }
        proof {
            if i == n {
                assert(ks.take(n as int) =~= ks);
            }
        }
        let p = i;
        let mut j: usize = p + 1;
        proof {
            lemma_cut_count_step(ks, p as int);
        }
        while j < n && !self.expr[j].is_rect()
            invariant
                p < j <= n == s.len(),
                self.expr@ == s,
                ks == kinds(s),
                j - cut_count(ks.take(j as int)) == a + 1,
                forall|t: int| p < t < j ==> (#[trigger] s[t]) is Cut,
            decreases n - j,
        {
            proof {
                lemma_cut_count_step(ks, j as int);
            }
            j += 1;
        }
        proof {
            if j == n {
                assert(ks.take(n as int) =~= ks);
            }
            assert(operand_pair(s, a as int, p as int, j as int));
        }
        self.swap(p, j);
        proof {
            let s2 = self.expr@;
            assert(kinds(s2) =~= ks);
            assert forall|x: int| 0 <= x && x + 1 < s2.len() implies !#[trigger] clash(s2, x) by {
                if clash(s2, x) {
                    assert(clash(s, x));
                }
            }
        }
    }

    /// Move M2: flips every operator of the `n`-th chain.
    pub fn m2(&mut self, n: usize)
        requires
            old(self).valid(),
            n < chains_of(old(self).kinds()).len(),
        ensures
            final(self).valid(),
            final(self).kinds() == old(self).kinds(),
            final(self).operand_count() == old(self).operand_count(),
            cut_count(final(self).kinds()) == cut_count(old(self).kinds()),
            final(self).ballot == old(self).ballot,
            flipped_range(
                old(self).expr@,
                final(self).expr@,
                chains_of(old(self).kinds())[n as int].0,
                chains_of(old(self).kinds())[n as int].1,
            ),
    {
        let ghost s = self.expr@;
        let ghost ks = self.kinds();
        let (a, b) = self.nth_chain(n);
        proof {
            lemma_chains_of(ks);
            assert(is_chain(ks, a as int, b as int));
        }
        let mut t: usize = a;
        while t < b
            invariant
                a <= t <= b <= s.len(),
                self.expr@.len() == s.len(),
                self.ballot == old(self).ballot,
                ks == kinds(s),
                is_chain(ks, a as int, b as int),
                flipped_range(s, self.expr@, a as int, t as int),
            decreases b - t,
        {
            proof {
                assert(ks[t as int]);
            }
            match self.expr[t] {
                TreeItem::Cut(c) => {
                    self.expr.set(t, TreeItem::Cut(c.opposite()));
                },
                _ => {},
            }
            t += 1;
        }
        proof {
            let s2 = self.expr@;
            assert(kinds(s2) =~= ks) by {
                assert forall|x: int| 0 <= x < s.len() implies kinds(s2)[x] == ks[x] by {
                    if a <= x < b {
                        assert(ks[x]);
                    }
                }
            }
            assert forall|x: int| 0 <= x && x + 1 < s2.len() implies !#[trigger] clash(s2, x) by {
                if clash(s2, x) {
                    if a <= x && x + 1 < b {
                        assert(ks[x] && ks[x + 1]);
                        assert(clash(s, x));
                    } else if x + 1 == a || x + 1 == b {
                        assert(!ks[x + 1] || !ks[x]);
                    } else {
                        assert(clash(s, x));
                    }
                }
            }
        }
    }
}

impl NPE {
    fn satisfies_ballot(&self, a: usize, b: usize) -> (r: bool)
        requires
            b < self.ballot@.len(),
        ensures
            r == (2 * self.ballot@[b as int].1 < a),
    {
        let ops = self.ballot[b].1;
        if ops > usize::MAX / 2 {
            false
        } else {
            2 * ops < a
        }
    }

    /// No two adjacent tokens in positions `a` through `b` are equal.
    pub fn is_normalized(&self, a: usize, b: usize) -> (r: bool)
        requires
            a <= b < self.expr@.len(),
        ensures
            r == distinct_adjacent(self.expr@, a as int, b as int),
    {
        let mut j: usize = a;
        while j < b
            invariant
                a <= j <= b < self.expr@.len(),
                distinct_adjacent(self.expr@, a as int, j as int),
            decreases b - j,
        {
            if self.expr[j] == self.expr[j + 1] {
                return false;
            }
            j += 1;
        }
        true
    }

    /// Whether exchanging the tokens at `a` and `b == a + 1` passes the ballot
    /// test and the neighbourhood of the pair holds no adjacent equal tokens.
    pub fn is_swap_normalized(&self, a: usize, b: usize) -> (r: bool)
        requires
            a < b < self.expr@.len(),
            self.ballot@.len() == self.expr@.len(),
        ensures
            r == (2 * self.ballot@[b as int].1 < a && distinct_adjacent(
                self.expr@,
                window_lo(a as int),
                window_hi(b as int, self.expr@.len() as int),
            )),
    {
        let lo = if a > 0 { a - 1 } else { 0 };
        let hi = if b < self.expr.len() - 1 { b + 1 } else { self.expr.len() - 1 };
        self.satisfies_ballot(a, b) && self.is_normalized(lo, hi)
    }

    /// Move M3: tries the adjacent operand/operator pairs in random order and
    /// makes the first exchange that passes the ballot test and leaves no
    /// equal neighbours around the pair; changes nothing when none passes.
    pub fn m3(&mut self)
        requires
            old(self).valid(),
        ensures
            final(self).valid(),
            final(self).expr@.len() == old(self).expr@.len(),
            (final(self).expr@ == old(self).expr@ && final(self).ballot@ == old(self).ballot@
                && forall|i: int| !#[trigger] m3_accepts(old(self).expr@, i)) || exists|i: int|
                #[trigger] m3_accepts(old(self).expr@, i) && final(self).expr@ == swapped(
                    old(self).expr@,
                    i,
                    i + 1,
                ),
    {
        let ghost s = self.expr@;
        let ghost ks = self.kinds();
        let n = self.expr.len();
        let mut windows: Vec<usize> = Vec::new();
        let mut i: usize = 0;
        while i + 1 < n
            invariant
                i < n == s.len(),
                self.expr@ == s,
                forall|t: int| 0 <= t < i && #[trigger] boundary(s, t) ==> windows@.contains(t as usize),
            decreases n - i,
        {
            if self.expr[i].is_rect() && self.expr[i + 1].is_cut() || self.expr[i].is_cut()
                && self.expr[i + 1].is_rect() {
                let ghost w = windows@;
                windows.push(i);
                proof {
                    assert(windows@[windows@.len() - 1] == i);
                    assert forall|t: int| 0 <= t < i && #[trigger] boundary(s, t) implies windows@.contains(t as usize) by {
                        let m = choose|m: int| 0 <= m < w.len() && w[m] == t as usize;
                        assert(windows@[m] == t as usize);
                    }
                }
            }
            i += 1;
        }
        let ghost w0 = windows@;
        shuffle_indices(&mut windows);
        proof {
            assert forall|t: int| #[trigger] boundary(s, t) implies windows@.contains(t as usize) by {
                assert(w0.contains(t as usize));
                to_multiset_contains(w0, t as usize);
                to_multiset_contains(windows@, t as usize);
            }
        }
        let mut k: usize = 0;
        let mut done = false;
        while k < windows.len() && !done
            invariant
                n == s.len() > 0,
                ks == kinds(s),
                old(self).valid(),
                s == old(self).expr@,
                k <= windows@.len(),
                forall|t: int| #[trigger] boundary(s, t) ==> windows@.contains(t as usize),
                !done ==> self.expr@ == s && self.ballot@ == old(self).ballot@,
                !done ==> forall|m: int| 0 <= m < k ==> !m3_accepts(s, #[trigger] windows@[m] as int),
                done ==> self.valid() && exists|i: int|
                    #[trigger] m3_accepts(s, i) && self.expr@ == swapped(s, i, i + 1),
            decreases windows@.len() - k,
        {
            let i = windows[k];
            proof {
                if i as int + 1 < n {
                    let b = old(self).ballot@[i as int + 1];
                    assert((b.0 as int, b.1 as int) == ballot_at(ks, i as int + 1));
                }
            }
            if i < n - 1 && self.expr[i].is_cut() != self.expr[i + 1].is_cut()
                && self.is_swap_normalized(i, i + 1) {
                self.swap(i, i + 1);
                let lo = if i > 0 { i - 1 } else { 0 };
                let hi = if i + 2 < n { i + 2 } else { n - 1 };
                if !self.is_normalized(lo, hi) {
                    self.swap(i, i + 1);
                    proof {
                        assert(self.expr@ =~= s);
                    }
                } else {
                    proof {
                        lemma_boundary_swap_valid(s, i as int, self.expr@);
                        assert(m3_accepts(s, i as int));
                    }
                    self.calculate_ballot();
                    done = true;
                }
            }
            k += 1;
        }
        proof {
            if !done {
                assert forall|t: int| !#[trigger] m3_accepts(s, t) by {
                    if m3_accepts(s, t) {
                        assert(windows@.contains(t as usize));
                        let m = choose|m: int| 0 <= m < windows@.len() && windows@[m] == t as usize;
                        assert(!m3_accepts(s, windows@[m] as int));
                    }
                }
            }
        }
    }
}

impl NPE {
    /// Evaluates the expression over the box table: the enclosing box of the
    /// whole arrangement.
    pub fn aabb(&self, rects: &[Rect]) -> (r: Rect)
        requires
            skewed(self.kinds()),
            operands_in(self.expr@, rects@.len() as int),
            evaluation_fits(self.expr@, rects@),
        ensures
            run(seq![], self.expr@, rects@).len() == 1,
            r@ == run(seq![], self.expr@, rects@)[0],
    {
        let ghost s = self.expr@;
        let ghost k = self.kinds();
        let n = self.expr.len();
        let mut operands: Vec<Rect> = Vec::new();
        let mut i: usize = 0;
        proof {
            assert(s.take(0) =~= Seq::<TreeItem>::empty());
            assert(dims_of(operands@) =~= seq![]);
        }
        while i < n
            invariant
                i <= n == s.len(),
                s == self.expr@,
                k == kinds(s),
                skewed(k),
                operands_in(s, rects@.len() as int),
                evaluation_fits(s, rects@),
                dims_of(operands@) == run(seq![], s.take(i as int), rects@),
            decreases n - i,
        {
            let ghost st = run(seq![], s.take(i as int), rects@);
            proof {
                assert(s.take(i as int + 1) =~= s.take(i as int).push(s[i as int]));
                lemma_run_push(seq![], s.take(i as int), s[i as int], rects@);
                lemma_stack_height(s, rects@, i as int);
                lemma_cut_count_step(k, i as int);
                assert(2 * cut_count(k.take(i as int + 1)) < i + 1);
            }
            match self.expr[i] {
                TreeItem::Rect(x) => {
                    operands.push(rects[x]);
                    proof {
                        assert(dims_of(operands@) =~= st.push(rects@[x as int]@));
                    }
                },
                TreeItem::Cut(cut) => {
                    let ghost m = operands@.len() as int;
                    let right = operands.pop().unwrap();
                    let left = operands.pop().unwrap();
                    proof {
                        assert(left@ == st[m - 2]);
                        assert(right@ == st[m - 1]);
                        let nxt = run(seq![], s.take(i as int + 1), rects@);
                        assert(nxt[nxt.len() - 1] == enclose(left@, right@, cut));
                    }
                    operands.push(Rect::aabb(left, right, cut));
                    proof {
                        assert(dims_of(operands@) =~= st.take(st.len() - 2).push(
                            enclose(left@, right@, cut),
                        ));
                    }
                },
            }
            i += 1;
        }
        proof {
            assert(s.take(n as int) =~= s);
            assert(k.take(n as int) =~= k);
            lemma_stack_height(s, rects@, n as int);
        }
        operands[0]
    }

    /// Applies `iterations` random moves, each chosen uniformly among M1, M2
    /// and M3; a move that has no legal argument leaves the expression as it is.
    pub fn perturb(&mut self, iterations: usize)
        requires
            old(self).valid(),
        ensures
            final(self).valid(),
            moves(old(self).expr@, final(self).expr@, iterations as nat),
            final(self).expr@.len() == old(self).expr@.len(),
            final(self).operand_count() == old(self).operand_count(),
            iterations == 0 ==> final(self).expr@ == old(self).expr@ && final(self).ballot@ == old(
                self,
            ).ballot@,
    {
        let mut num_chains = self.number_chains();
        let num_operands = self.count_operands();
        let mut it: usize = 0;
        let ghost mut path: Seq<Seq<TreeItem>> = seq![self.expr@];
        while it < iterations
            invariant
                it <= iterations,
                self.valid(),
                move_path(path, old(self).expr@, self.expr@, it as nat),
                self.expr@.len() == old(self).expr@.len(),
                num_operands == self.operand_count() == old(self).operand_count(),
                num_chains == chains_of(self.kinds()).len(),
                it == 0 ==> self.expr@ == old(self).expr@ && self.ballot@ == old(self).ballot@,
            decreases iterations - it,
        {
            let ghost prev = self.expr@;
            let choice = random_below(3);
            if choice == 0 {
                if num_operands >= 2 {
                    let a = random_below(num_operands - 1);
                    self.m1(a);
                    proof {
                        let (p, q) = choose|p: int, q: int|
                            operand_pair(prev, a as int, p, q) && self.expr@ == swapped(prev, p, q);
                        assert(exchanged_operands(prev, self.expr@, a as int, p, q));
                    }
                }
            } else if choice == 1 {
                if num_chains > 0 {
                    let n = random_below(num_chains);
                    self.m2(n);
                    proof {
                        assert(flipped_chain(prev, self.expr@, n as int));
                    }
                }
            } else {
                self.m3();
                num_chains = self.number_chains();
            }
            proof {
                assert(one_move(prev, self.expr@));
                let p2 = path.push(self.expr@);
                assert forall|j: int| 0 <= j < it + 1 implies #[trigger] step_ok(p2, j) by {
                    assert(p2[j] == path[j]);
                    if j < it {
                        assert(step_ok(path, j));
                        assert(p2[j + 1] == path[j + 1]);
                    }
                }
                path = p2;
            }
            it += 1;
        }
        proof {
            assert(move_path(path, old(self).expr@, self.expr@, iterations as nat));
        }
    }
}

impl NPE {
    /// Whether the expression is decodable, normalized and has its ballot up
    /// to date.
    pub fn is_valid(&self) -> (r: bool)
        ensures
            r == self.valid(),
    {
        let ghost s = self.expr@;
        let ghost k = self.kinds();
        let n = self.expr.len();
        if n == 0 || self.ballot.len() != n {
            return false;
        }
        let mut cuts: usize = 0;
        let mut i: usize = 0;
        proof {
            assert(k.take(0) =~= Seq::<bool>::empty());
        }
        while i < n
            invariant
                i <= n == s.len() == self.ballot@.len(),
                s == self.expr@,
                k == kinds(s),
                cuts == cut_count(k.take(i as int)),
                forall|j: int|
                    0 <= j < i ==> (#[trigger] self.ballot@[j].0 as int, self.ballot@[j].1 as int)
                        == ballot_at(k, j),
                forall|j: int| 1 <= j <= i ==> 2 * #[trigger] cut_count(k.take(j)) < j,
                forall|j: int| 0 <= j < i && j + 1 < n ==> !#[trigger] clash(s, j),
            decreases n - i,
        {
            proof {
                lemma_cut_count_step(k, i as int);
                lemma_cut_count_bounds(k.take(i as int + 1));
            }
            if self.expr[i].is_cut() {
                cuts += 1;
            }
            let (a, b) = self.ballot[i];
            if a != i + 1 - cuts || b != cuts {
                proof {
                    assert(!self.ballot_ok());
                }
                return false;
            }
            if cuts >= i + 1 - cuts {
                proof {
                    assert(!skewed(k));
                }
                return false;
            }
            if i + 1 < n && self.expr[i].is_cut() && self.expr[i] == self.expr[i + 1] {
                proof {
                    assert(clash(s, i as int));
                }
                return false;
            }
            i += 1;
        }
        proof {
            assert(k.take(n as int) =~= k);
        }
        n - cuts == cuts + 1
    }
}

impl NPE {
    /// Evaluates the expression like `aabb`, but returns `None` instead of
    /// requiring that it decodes, that its operands name boxes of the table
    /// and that every box built fits a `usize`.
    pub fn aabb_checked(&self, rects: &[Rect]) -> (r: Option<Rect>)
        ensures
            r matches Some(x) ==> run(seq![], self.expr@, rects@).len() == 1 && x@ == run(
                seq![],
                self.expr@,
                rects@,
            )[0],
            skewed(self.kinds()) && operands_in(self.expr@, rects@.len() as int) && evaluation_fits(
                self.expr@,
                rects@,
            ) ==> r is Some,
    {
        let ghost s = self.expr@;
        let ghost k = self.kinds();
        let ghost good = skewed(k) && operands_in(s, rects@.len() as int) && evaluation_fits(s, rects@);
        let n = self.expr.len();
        let mut operands: Vec<Rect> = Vec::new();
        let mut i: usize = 0;
        proof {
            assert(s.take(0) =~= Seq::<TreeItem>::empty());
            assert(dims_of(operands@) =~= seq![]);
        }
        while i < n
            invariant
                i <= n == s.len(),
                s == self.expr@,
                k == kinds(s),
                good == (skewed(k) && operands_in(s, rects@.len() as int) && evaluation_fits(s, rects@)),
                dims_of(operands@) == run(seq![], s.take(i as int), rects@),
            decreases n - i,
        {
            let ghost st = run(seq![], s.take(i as int), rects@);
            proof {
                assert(s.take(i as int + 1) =~= s.take(i as int).push(s[i as int]));
                lemma_run_push(seq![], s.take(i as int), s[i as int], rects@);
                if good {
                    lemma_stack_height(s, rects@, i as int);
                    lemma_cut_count_step(k, i as int);
                    assert(2 * cut_count(k.take(i as int + 1)) < i + 1);
                }
            }
            match self.expr[i] {
                TreeItem::Rect(x) => {
                    if x >= rects.len() {
                        return None;
                    }
                    operands.push(rects[x]);
                    proof {
                        assert(dims_of(operands@) =~= st.push(rects@[x as int]@));
                    }
                },
                TreeItem::Cut(cut) => {
                    if operands.len() < 2 {
                        return None;
                    }
                    let ghost m = operands@.len() as int;
                    let right = operands.pop().unwrap();
                    let left = operands.pop().unwrap();
                    proof {
                        assert(left@ == st[m - 2]);
                        assert(right@ == st[m - 1]);
                        if good {
                            let nxt = run(seq![], s.take(i as int + 1), rects@);
                            assert(nxt[nxt.len() - 1] == enclose(left@, right@, cut));
                        }
                    }
                    let fits = match cut {
                        Cut::Vertical => left.width <= usize::MAX - right.width,
                        Cut::Horizontal => left.height <= usize::MAX - right.height,
                    };
                    if !fits {
                        return None;
                    }
                    operands.push(Rect::aabb(left, right, cut));
                    proof {
                        assert(dims_of(operands@) =~= st.take(st.len() - 2).push(
                            enclose(left@, right@, cut),
                        ));
                    }
                },
            }
            i += 1;
        }
        proof {
            assert(s.take(n as int) =~= s);
            if good {
                assert(k.take(n as int) =~= k);
                lemma_stack_height(s, rects@, n as int);
            }
        }
        if operands.len() != 1 {
            return None;
        }
        Some(operands[0])
    }
}

} // verus!
