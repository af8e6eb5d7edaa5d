//! The Markov chain itself and its two-phase builder.
//!
//! The builder first collects the vocabulary (`Stating`), then freezes it
//! and accumulates a square occurrence matrix of transition counts
//! (`Recording`). Building normalizes the matrix into a row-stochastic
//! probability matrix held as exact rationals: each row keeps its counts
//! and their sum, so entry `(i, j)` stands for `num[j] / den` of row `i`.
//! A row whose counts sum to zero is a terminal state: the walk ends
//! there instead of dividing by zero.

use vstd::prelude::*;

verus! {

/// Sum of one row of transition counts.
pub open spec fn row_total(s: Seq<u32>) -> int
    decreases s.len(),
{
    if s.len() == 0 {
        0
    } else {
        row_total(s.drop_last()) + s.last()
    }
}

/// Sum of all cells of the occurrence matrix.
pub open spec fn mat_total(m: Seq<Seq<u32>>) -> int
    decreases m.len(),
{
    if m.len() == 0 {
        0
    } else {
        mat_total(m.drop_last()) + row_total(m.last())
    }
}

/// The matrix is square with the given dimension.
pub open spec fn is_square(m: Seq<Seq<u32>>, n: int) -> bool {
    m.len() == n && forall|i: int| 0 <= i < n ==> #[trigger] m[i].len() == n
}

/// The token list holds pairwise distinct tokens.
pub open spec fn distinct_tokens(s: Seq<String>) -> bool {
    forall|i: int, j: int| 0 <= i < j < s.len() ==> s[i]@ != s[j]@
}

pub proof fn lemma_row_total_nonneg(s: Seq<u32>)
    ensures
        row_total(s) >= 0,
    decreases s.len(),
{
    if s.len() > 0 {
        lemma_row_total_nonneg(s.drop_last());
    }
}

pub proof fn lemma_row_total_take_step(s: Seq<u32>, k: int)
    requires
        0 <= k < s.len(),
    ensures
        row_total(s.take(k + 1)) == row_total(s.take(k)) + s[k],
{
    assert(s.take(k + 1).drop_last() =~= s.take(k));
    assert(s.take(k + 1).last() == s[k]);
}

pub proof fn lemma_row_total_take_le(s: Seq<u32>, k: int)
    requires
        0 <= k <= s.len(),
    ensures
        row_total(s.take(k)) <= row_total(s),
    decreases s.len() - k,
{
    if k == s.len() {
        assert(s.take(k) =~= s);
    } else {
        lemma_row_total_take_le(s, k + 1);
        lemma_row_total_take_step(s, k);
    }
}

/// Every cell is at most its row's sum.
pub proof fn lemma_cell_le_row_total(s: Seq<u32>, k: int)
    requires
        0 <= k < s.len(),
    ensures
        s[k] <= row_total(s),
    decreases s.len(),
{
    lemma_row_total_nonneg(s.drop_last());
    if k < s.len() - 1 {
        lemma_cell_le_row_total(s.drop_last(), k);
    }
}

/// A row whose sum is zero is all zero.
pub proof fn lemma_zero_row_all_zero(s: Seq<u32>)
    requires
        row_total(s) == 0,
    ensures
        forall|k: int| 0 <= k < s.len() ==> s[k] == 0,
{
    assert forall|k: int| 0 <= k < s.len() implies s[k] == 0 by {
        lemma_cell_le_row_total(s, k);
    }
}

pub proof fn lemma_mat_total_nonneg(m: Seq<Seq<u32>>)
    ensures
        mat_total(m) >= 0,
    decreases m.len(),
{
    if m.len() > 0 {
        lemma_mat_total_nonneg(m.drop_last());
        lemma_row_total_nonneg(m.last());
    }
}

/// Every row's sum is at most the whole matrix's sum.
pub proof fn lemma_row_le_mat_total(m: Seq<Seq<u32>>, i: int)
    requires
        0 <= i < m.len(),
    ensures
        row_total(m[i]) <= mat_total(m),
    decreases m.len(),
{
    lemma_mat_total_nonneg(m.drop_last());
    lemma_row_total_nonneg(m.last());
    if i < m.len() - 1 {
        lemma_row_le_mat_total(m.drop_last(), i);
    }
}

pub proof fn lemma_row_total_update(s: Seq<u32>, k: int, v: u32)
    requires
        0 <= k < s.len(),
    ensures
        row_total(s.update(k, v)) + s[k] == row_total(s) + v,
    decreases s.len(),
{
    let su = s.update(k, v);
    if k == s.len() - 1 {
        assert(su.drop_last() =~= s.drop_last());
    } else {
        lemma_row_total_update(s.drop_last(), k, v);
        assert(su.drop_last() =~= s.drop_last().update(k, v));
        assert(su.last() == s.last());
    }
}

pub proof fn lemma_mat_total_update(m: Seq<Seq<u32>>, i: int, r: Seq<u32>)
    requires
        0 <= i < m.len(),
    ensures
        mat_total(m.update(i, r)) + row_total(m[i]) == mat_total(m) + row_total(r),
    decreases m.len(),
{
    let mu = m.update(i, r);
    if i == m.len() - 1 {
        assert(mu.drop_last() =~= m.drop_last());
    } else {
        lemma_mat_total_update(m.drop_last(), i, r);
        assert(mu.drop_last() =~= m.drop_last().update(i, r));
        assert(mu.last() == m.last());
    }
}

/// The view of a matrix held as a vector of row vectors.
pub open spec fn rows_view(m: Seq<Vec<u32>>) -> Seq<Seq<u32>> {
    Seq::new(m.len(), |i: int| m[i]@)
}

/// One row of the probability matrix, as an exact rational: entry `j`
/// is `num[j] / den`, and `den` is the sum of all `num[j]`.
pub struct ProbRow {
    pub num: Vec<u32>,
    pub den: u64,
}

/// The row has the right width and its denominator is the row sum.
pub open spec fn wf_row(r: ProbRow, n: int) -> bool {
    r.num@.len() == n && r.den == row_total(r.num@)
}

/// `rows` is the normalization of the occurrence matrix `m`: row for
/// row, the counts are kept and the denominator is the row's sum.
pub open spec fn is_normalization_of(rows: Seq<ProbRow>, m: Seq<Seq<u32>>) -> bool {
    &&& rows.len() == m.len()
    &&& forall|i: int|
        0 <= i < m.len() ==> (#[trigger] rows[i]).num@ == m[i] && rows[i].den == row_total(m[i])
}

/// Normalizing pins the result completely: any two normalizations of the
/// same occurrence matrix agree row for row, whatever worker count
/// produced each. Normalizing twice therefore yields identical matrices.
pub proof fn lemma_normalization_unique(r1: Seq<ProbRow>, r2: Seq<ProbRow>, m: Seq<Seq<u32>>)
    requires
        is_normalization_of(r1, m),
        is_normalization_of(r2, m),
    ensures
        r1.len() == r2.len(),
        forall|i: int|
            0 <= i < r1.len() ==> (#[trigger] r1[i]).num@ == r2[i].num@ && r1[i].den == r2[i].den,
{
}

/// Every row of a normalized matrix is row-stochastic in the exact
/// sense: its entries `num[j] / den` are each at most one (`num[j] <=
/// den`), and a row with a nonzero sum sums to exactly one
/// (`sum(num) == den`).
pub proof fn lemma_rows_stochastic(rows: Seq<ProbRow>, m: Seq<Seq<u32>>, i: int)
    requires
        is_normalization_of(rows, m),
        0 <= i < rows.len(),
    ensures
        row_total(rows[i].num@) == rows[i].den,
        forall|j: int| 0 <= j < rows[i].num@.len() ==> #[trigger] rows[i].num@[j] <= rows[i].den,
{
    assert forall|j: int| 0 <= j < rows[i].num@.len() implies #[trigger] rows[i].num@[j]
        <= rows[i].den by {
        lemma_cell_le_row_total(rows[i].num@, j);
    }
}

/// A zero-sum row of a normalized matrix is all zero: the normalizer
/// never divides by the zero sum, so no undefined entries arise; the
/// row stands for a terminal state.
pub proof fn lemma_zero_row_terminal(rows: Seq<ProbRow>, m: Seq<Seq<u32>>, i: int)
    requires
        is_normalization_of(rows, m),
        0 <= i < rows.len(),
        rows[i].den == 0,
    ensures
        forall|j: int| 0 <= j < rows[i].num@.len() ==> #[trigger] rows[i].num@[j] == 0,
{
    lemma_zero_row_all_zero(rows[i].num@);
}

/// Relies on `rand::random` (rand 0.10): a pseudo-random value; nothing
/// is assumed about which value comes back.
#[verifier::external_body]
fn random_u64() -> u64 {
    rand::random::<u64>()
}

/// Index of the token in the list, if present.
pub fn find_token(v: &Vec<String>, t: &String) -> (r: Option<usize>)
    ensures
        match r {
            Some(i) => i < v@.len() && v@[i as int]@ == t@,
            None => forall|i: int| 0 <= i < v@.len() ==> #[trigger] v@[i]@ != t@,
        },
{
    let n = v.len();
    for i in 0..n
        invariant
            n == v@.len(),
            forall|j: int| 0 <= j < i ==> #[trigger] v@[j]@ != t@,
    {
        if v[i] == *t {
            return Some(i);
        }
    }
    None
}

/// The token `t` occurs in the list.
pub open spec fn contains_token(s: Seq<String>, t: Seq<char>) -> bool {
    exists|i: int| 0 <= i < s.len() && #[trigger] s[i]@ == t
}

/// The index of token `t` in the list (unique when tokens are distinct).
pub open spec fn token_index(s: Seq<String>, t: Seq<char>) -> int {
    choose|i: int| 0 <= i < s.len() && #[trigger] s[i]@ == t
}

/// The `n` by `n` matrix of zero counts.
pub open spec fn zero_matrix(n: int) -> Seq<Seq<u32>> {
    Seq::new(n as nat, |i: int| Seq::new(n as nat, |j: int| 0u32))
}

/// One more observation of the transition `i` to `j`.
pub open spec fn bump_cell(m: Seq<Seq<u32>>, i: int, j: int) -> Seq<Seq<u32>> {
    m.update(i, m[i].update(j, (m[i][j] + 1) as u32))
}

pub proof fn lemma_row_total_all_zero(s: Seq<u32>)
    requires
        forall|k: int| 0 <= k < s.len() ==> s[k] == 0,
    ensures
        row_total(s) == 0,
    decreases s.len(),
{
    if s.len() > 0 {
        lemma_row_total_all_zero(s.drop_last());
    }
}

pub proof fn lemma_mat_total_zero_rows(m: Seq<Seq<u32>>)
    requires
        forall|i: int| 0 <= i < m.len() ==> row_total(#[trigger] m[i]) == 0,
    ensures
        mat_total(m) == 0,
    decreases m.len(),
{
    if m.len() > 0 {
        lemma_mat_total_zero_rows(m.drop_last());
    }
}

/// Construction phase: collecting the vocabulary, or recording
/// transitions into the occurrence matrix.
pub enum BuilderState {
    Stating,
    Recording(Vec<Vec<u32>>),
}

/// Two-phase builder for a Markov chain: first collect states, then
/// freeze the vocabulary and accumulate transition counts.
pub struct MarkovChainBuilder {
    pub state: BuilderState,
    pub vectored: Vec<String>,
    pub recorded: u64,
}

impl MarkovChainBuilder {
    /// Number of states collected so far.
    pub open spec fn n(self) -> int {
        self.vectored@.len() as int
    }

    /// The vocabulary is frozen and the matrix allocated.
    pub open spec fn is_recording(self) -> bool {
        self.state is Recording
    }

    /// The occurrence matrix (empty while still collecting states).
    pub open spec fn mat(self) -> Seq<Seq<u32>> {
        match self.state {
            BuilderState::Recording(m) => rows_view(m@),
            BuilderState::Stating => Seq::empty(),
        }
    }

    /// States are distinct; once recording, the matrix is square and
    /// `recorded` counts all increments, which bounds every cell.
    pub open spec fn wf(self) -> bool {
        &&& distinct_tokens(self.vectored@)
        &&& match self.state {
            BuilderState::Stating => self.recorded == 0,
            BuilderState::Recording(m) => {
                &&& is_square(rows_view(m@), self.n())
                &&& mat_total(rows_view(m@)) == self.recorded
                &&& self.recorded <= u32::MAX
            },
        }
    }

    /// A fresh builder with no states, still collecting.
    pub fn new() -> (r: MarkovChainBuilder)
        ensures
            r.wf(),
            !r.is_recording(),
            r.vectored@.len() == 0,
            r.recorded == 0,
    {
        MarkovChainBuilder { state: BuilderState::Stating, vectored: Vec::new(), recorded: 0 }
    }

    /// A builder whose vocabulary is the given distinct state list,
    /// already frozen and ready to record transitions.
    pub fn with_states(state: Vec<String>) -> (r: MarkovChainBuilder)
        requires
            distinct_tokens(state@),
        ensures
            r.wf(),
            r.is_recording(),
            r.vectored == state,
            r.recorded == 0,
            r.mat() == zero_matrix(state@.len() as int),
    {
        let mut r = MarkovChainBuilder {
            state: BuilderState::Stating,
            vectored: state,
            recorded: 0,
        };
        r.finalize_stating();
        r
    }

    /// Adds a state while still collecting; a duplicate token, or a call
    /// after the vocabulary was frozen, leaves the builder unchanged.
    pub fn add_state(&mut self, state: String)
        requires
            old(self).wf(),
        ensures
            final(self).wf(),
            old(self).is_recording() ==> *final(self) == *old(self),
            !old(self).is_recording() ==> final(self).state is Stating && final(self).recorded
                == 0 && (if contains_token(old(self).vectored@, state@) {
                final(self).vectored == old(self).vectored
            } else {
                final(self).vectored@ == old(self).vectored@.push(state)
            }),
    {
        match &self.state {
            BuilderState::Stating => {
                match find_token(&self.vectored, &state) {
                    Some(_) => {},
                    None => {
                        self.vectored.push(state);
                    },
                }
            },
            BuilderState::Recording(_) => {},
        }
    }

    /// Freezes the vocabulary and allocates the zeroed occurrence
    /// matrix; only valid while still collecting.
    pub fn finalize_stating(&mut self)
        requires
            old(self).wf(),
            !old(self).is_recording(),
        ensures
            final(self).wf(),
            final(self).is_recording(),
            final(self).vectored == old(self).vectored,
            final(self).recorded == 0,
            final(self).mat() == zero_matrix(old(self).vectored@.len() as int),
    {
        let n = self.vectored.len();
        let mut matrix: Vec<Vec<u32>> = Vec::new();
        for i in 0..n
            invariant
                n == self.vectored@.len(),
                matrix@.len() == i,
                forall|k: int|
                    0 <= k < i ==> (#[trigger] matrix@[k])@.len() == n && forall|j: int|
                        0 <= j < n ==> matrix@[k]@[j] == 0,
        {
            let row: Vec<u32> = vec![0u32; n];
            assert(forall|j: int| 0 <= j < n ==> row@[j] == 0);
            matrix.push(row);
        }
        proof {
            assert forall|i: int| 0 <= i < n implies rows_view(matrix@)[i] == zero_matrix(
                n as int,
            )[i] by {
                assert(matrix@[i]@ =~= Seq::new(n as nat, |j: int| 0u32));
            }
            assert(rows_view(matrix@) =~= zero_matrix(n as int));
            assert forall|i: int| 0 <= i < n implies row_total(
                #[trigger] rows_view(matrix@)[i],
            ) == 0 by {
                lemma_row_total_all_zero(rows_view(matrix@)[i]);
            }
            lemma_mat_total_zero_rows(rows_view(matrix@));
        }
        self.state = BuilderState::Recording(matrix);
    }

    /// Records one observation of the transition from state `state1` to
    /// state `state2`, by vocabulary index.
    pub fn add_transition_by_id(&mut self, state1: usize, state2: usize)
        requires
            old(self).wf(),
            old(self).is_recording(),
            state1 < old(self).n(),
            state2 < old(self).n(),
            old(self).recorded < u32::MAX,
        ensures
            final(self).wf(),
            final(self).is_recording(),
            final(self).vectored == old(self).vectored,
            final(self).recorded == old(self).recorded + 1,
            final(self).mat() == bump_cell(old(self).mat(), state1 as int, state2 as int),
    {
        let ghost m0 = self.mat();
        proof {
            lemma_row_le_mat_total(m0, state1 as int);
            lemma_cell_le_row_total(m0[state1 as int], state2 as int);
            lemma_row_total_nonneg(m0[state1 as int]);
        }
        match &mut self.state {
            BuilderState::Recording(m) => {
                let mut row = m[state1].clone();
                proof {
                    assert(row@ =~= m@[state1 as int]@);
                }
                let c = row[state2];
                row.set(state2, c + 1);
                proof {
                    lemma_row_total_update(m0[state1 as int], state2 as int, (c + 1) as u32);
                    lemma_mat_total_update(m0, state1 as int, row@);
                }
                m.set(state1, row);
                proof {
                    assert(rows_view(m@) =~= bump_cell(m0, state1 as int, state2 as int));
                }
            },
            BuilderState::Stating => {
                proof {
                    assert(false);
                }
            },
        }
        self.recorded = self.recorded + 1;
    }

    /// Records one observation of the transition from token `state1` to
    /// token `state2`; both must be in the vocabulary.
    pub fn add_transition(&mut self, state1: &String, state2: &String)
        requires
            old(self).wf(),
            old(self).is_recording(),
            contains_token(old(self).vectored@, state1@),
            contains_token(old(self).vectored@, state2@),
            old(self).recorded < u32::MAX,
        ensures
            final(self).wf(),
            final(self).is_recording(),
            final(self).vectored == old(self).vectored,
            final(self).recorded == old(self).recorded + 1,
            final(self).mat() == bump_cell(
                old(self).mat(),
                token_index(old(self).vectored@, state1@),
                token_index(old(self).vectored@, state2@),
            ),
    {
        let s1 = match find_token(&self.vectored, state1) {
            Some(i) => i,
            None => {
                proof {
                    assert(false);
                }
                0
            },
        };
        let s2 = match find_token(&self.vectored, state2) {
            Some(i) => i,
            None => {
                proof {
                    assert(false);
                }
                0
            },
        };
        proof {
            assert(s1 as int == token_index(self.vectored@, state1@));
            assert(s2 as int == token_index(self.vectored@, state2@));
        }
        self.add_transition_by_id(s1, s2);
    }

    /// Computes the probability rows `[beg, end)` of the chain matrix
    /// from the corresponding rows of the occurrence matrix.
    fn build_worker(state: &Vec<Vec<u32>>, beg: usize, end: usize) -> (r: Vec<ProbRow>)
        requires
            beg <= end <= state@.len(),
            forall|i: int| beg <= i < end ==> row_total(#[trigger] state@[i]@) <= u64::MAX,
        ensures
            r@.len() == end - beg,
            forall|k: int|
                0 <= k < end - beg ==> (#[trigger] r@[k]).num@ == state@[beg + k]@ && r@[k].den
                    == row_total(state@[beg + k]@),
    {
        let mut rows: Vec<ProbRow> = Vec::new();
        for i in beg..end
            invariant
                beg <= end <= state@.len(),
                forall|t: int| beg <= t < end ==> row_total(#[trigger] state@[t]@) <= u64::MAX,
                rows@.len() == i - beg,
                forall|k: int|
                    0 <= k < i - beg ==> (#[trigger] rows@[k]).num@ == state@[beg + k]@
                        && rows@[k].den == row_total(state@[beg + k]@),
        {
            let num = state[i].clone();
            proof {
                assert(num@ =~= state@[i as int]@);
            }
            let width = num.len();
            let mut den: u64 = 0;
            for j in 0..width
                invariant
                    width == num@.len(),
                    num@ == state@[i as int]@,
                    beg <= i < end <= state@.len(),
                    row_total(state@[i as int]@) <= u64::MAX,
                    den == row_total(num@.take(j as int)),
            {
                proof {
                    lemma_row_total_take_step(num@, j as int);
                    lemma_row_total_take_le(num@, j as int + 1);
                    lemma_row_total_nonneg(num@.take(j as int));
                }
                den = den + (num[j] as u64);
            }
            proof {
                assert(num@.take(width as int) =~= num@);
            }
            rows.push(ProbRow { num, den });
        }
        rows
    }

    /// Normalizes the occurrence matrix into the probability matrix and
    /// wraps it as a chain positioned at the start index.
    ///
    /// Rows are split into `jobs` contiguous blocks (the first `rem`
    /// blocks take one extra row), each block is normalized on its own,
    /// and the blocks are concatenated in ascending row order. The
    /// result is pinned row for row by the occurrence matrix alone, so
    /// every worker count in `[1, n]` yields the same matrix.
    pub fn build(self, jobs: usize) -> (r: MarkovChain)
        requires
            self.wf(),
            self.is_recording(),
            jobs >= 1,
        ensures
            r.wf(),
            r.states == self.vectored,
            r.current_state == 0,
            is_normalization_of(r.matrix@, self.mat()),
    {
        let ghost mv = self.mat();
        proof {
            assert forall|i: int| 0 <= i < mv.len() implies row_total(#[trigger] mv[i])
                <= u64::MAX by {
                lemma_row_le_mat_total(mv, i);
            }
        }
        let MarkovChainBuilder { state, vectored, recorded: _ } = self;
        let m: Vec<Vec<u32>> = match state {
            BuilderState::Recording(m) => m,
            BuilderState::Stating => {
                proof {
                    assert(false);
                }
                Vec::new()
            },
        };
        proof {
            assert(forall|i: int| 0 <= i < m@.len() ==> #[trigger] m@[i]@ == mv[i]);
        }
        let n = m.len();
        let mut rows: Vec<ProbRow> = Vec::new();
        if n > 0 {
            let jobs_eff = if jobs < n {
                jobs
            } else {
                n
            };
            let div = n / jobs_eff;
            let rem = n % jobs_eff;
            proof {
                vstd::arithmetic::div_mod::lemma_fundamental_div_mod(n as int, jobs_eff as int);
            }
            let mut used: usize = 0;
            proof {
                assert(0 * div == 0) by (nonlinear_arith);
                assert(used == 0 * div + (if 0 < rem {
                    0int
                } else {
                    rem as int
                }));
            }
            for i in 0..jobs_eff
                invariant
                    1 <= jobs_eff <= n,
                    n == m@.len(),
                    n == mv.len(),
                    div == n / jobs_eff,
                    rem == n % jobs_eff,
                    n == jobs_eff * div + rem,
                    forall|t: int| 0 <= t < n ==> #[trigger] m@[t]@ == mv[t],
                    forall|t: int| 0 <= t < n ==> row_total(#[trigger] mv[t]) <= u64::MAX,
                    used == i * div + (if i < rem {
                        i as int
                    } else {
                        rem as int
                    }),
                    used <= n,
                    rows@.len() == used,
                    forall|k: int|
                        0 <= k < used ==> (#[trigger] rows@[k]).num@ == mv[k] && rows@[k].den
                            == row_total(mv[k]),
            {
                let extra = if i < rem {
                    1
                } else {
                    0
                };
                proof {
                    assert((i + 1) * div == i * div + div) by (nonlinear_arith);
                    assert(i + 1 <= jobs_eff);
                    assert(jobs_eff * div - (i + 1) * div >= 0) by (nonlinear_arith)
                        requires
                            i + 1 <= jobs_eff,
                            div >= 0,
                    ;
                    if i + 1 < rem {
                        assert((i + 1) * div + (i + 1) + 1 <= jobs_eff * div + rem);
                    } else {
                        assert((i + 1) * div + rem <= jobs_eff * div + rem);
                    }
                }
                let end = used + div + extra;
                let mut block = Self::build_worker(&m, used, end);
                let ghost prev = rows@;
                rows.append(&mut block);
                proof {
                    assert forall|k: int| 0 <= k < end implies (#[trigger] rows@[k]).num@ == mv[k]
                        && rows@[k].den == row_total(mv[k]) by {
                        if k < prev.len() {
                            assert(rows@[k] == prev[k]);
                        } else {
                            assert(rows@[k].num@ == m@[k]@);
                        }
                    }
                }
                used = end;
            }
            proof {
                assert(rem <= jobs_eff);
                assert(used == jobs_eff * div + rem);
            }
        }
        MarkovChain { matrix: rows, states: vectored, current_state: 0 }
    }

    /// The occurrence matrix recorded so far, for inspection; `None`
    /// while the vocabulary is still being collected.
    pub fn occurrence_matrix(&self) -> (r: Option<&Vec<Vec<u32>>>)
        ensures
            match r {
                Some(m) => self.is_recording() && rows_view(m@) == self.mat(),
                None => !self.is_recording(),
            },
    {
        match &self.state {
            BuilderState::Recording(m) => Some(m),
            BuilderState::Stating => None,
        }
    }

    /// Total number of transitions recorded so far.
    pub fn transitions_recorded(&self) -> (r: u64)
        ensures
            r == self.recorded,
    {
        self.recorded
    }
}

/// A Markov chain over tokens: the probability matrix, the vocabulary,
/// and the current-state cursor.
pub struct MarkovChain {
    pub matrix: Vec<ProbRow>,
    pub states: Vec<String>,
    pub current_state: usize,
}

impl MarkovChain {
    /// Number of states.
    pub open spec fn n(self) -> int {
        self.states@.len() as int
    }

    /// Tokens are distinct, the matrix is square with matching
    /// denominators, and the cursor is in range.
    pub open spec fn wf(self) -> bool {
        &&& distinct_tokens(self.states@)
        &&& self.matrix@.len() == self.n()
        &&& forall|i: int| 0 <= i < self.n() ==> wf_row(#[trigger] self.matrix@[i], self.n())
        &&& if self.n() == 0 {
            self.current_state == 0
        } else {
            self.current_state < self.n()
        }
    }

    /// Moves the cursor to the named token; an unknown token is a lookup
    /// failure that leaves the cursor unchanged.
    pub fn reset(&mut self, state: &String) -> (r: Result<(), ()>)
        requires
            old(self).wf(),
        ensures
            final(self).wf(),
            final(self).states == old(self).states,
            final(self).matrix == old(self).matrix,
            (r is Ok) <==> exists|i: int|
                0 <= i < old(self).states@.len() && #[trigger] old(self).states@[i]@ == state@,
            r is Ok ==> final(self).current_state < old(self).states@.len()
                && old(self).states@[final(self).current_state as int]@ == state@,
            r is Err ==> final(self).current_state == old(self).current_state,
    {
        match find_token(&self.states, state) {
            Some(i) => {
                self.current_state = i;
                Ok(())
            },
            None => Err(()),
        }
    }

    /// Samples a successor of the current state: a random point of the
    /// current row's cumulative distribution picks the first column whose
    /// cumulative count exceeds it, so only a column with a nonzero count
    /// can be chosen. From a zero-sum row (a terminal state) there is no
    /// successor: the cursor goes back to the start index and the walk
    /// reports its normal end.
    pub fn next_state(&mut self) -> (r: Option<String>)
        requires
            old(self).wf(),
        ensures
            final(self).wf(),
            final(self).states == old(self).states,
            final(self).matrix == old(self).matrix,
            ({
                let n = old(self).states@.len();
                if n == 0 || old(self).matrix@[old(self).current_state as int].den == 0 {
                    r is None && final(self).current_state == 0
                } else {
                    let row = old(self).matrix@[old(self).current_state as int];
                    let next = final(self).current_state as int;
                    r is Some && next < n && row.num@[next] > 0
                        && r.unwrap()@ == old(self).states@[next]@
                }
            }),
    {
        let n = self.states.len();
        if n == 0 {
            self.current_state = 0;
            return None;
        }
        let cur = self.current_state;
        let den = self.matrix[cur].den;
        if den == 0 {
            self.current_state = 0;
            return None;
        }
        let rnd = random_u64() % den;
        let ghost row = self.matrix@[cur as int];
        let mut cum: u64 = 0;
        for j in 0..n
            invariant
                *self == *old(self),
                n == self.states@.len(),
                self.wf(),
                cur == self.current_state,
                cur < n,
                row == self.matrix@[cur as int],
                row.num@.len() == n,
                den == row.den,
                den == row_total(row.num@),
                den > 0,
                rnd < den,
                cum == row_total(row.num@.take(j as int)),
                cum <= rnd,
        {
            let c = self.matrix[cur].num[j];
            proof {
                lemma_row_total_take_step(row.num@, j as int);
                lemma_row_total_take_le(row.num@, j as int + 1);
                lemma_row_total_nonneg(row.num@.take(j as int));
            }
            let cum2 = cum + (c as u64);
            if cum2 > rnd {
                self.current_state = j;
                return Some(self.states[j].clone());
            }
            cum = cum2;
        }
        proof {
            assert(row.num@.take(n as int) =~= row.num@);
            assert(false);
        }
        None
    }
}

} // verus!
