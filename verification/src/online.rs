//! Online phase of the Pool OPRF (Figure 4 of the paper).
//!
//! Request, BlindEval and Finalize each follow Figure 4, with two deviations
//! that apply to all three:
//!
//!  - One evaluation is `H_ROWS` base runs. A base run of the paper's
//!    protocol produces a single Z_p element, while the PRF output is a whole
//!    row vector, so every algorithm here runs the single-row version
//!    `H_ROWS` times over `H_ROWS` consecutive slots.
//!  - One message may carry several evaluations, so that a caller with a set
//!    to evaluate pays one round trip per batch rather than per element.
use vstd::prelude::*;
use crate::eval::{respond, response_spec};
use crate::hash::{hash_to_zq_matrix, is_zq_row, ro_matrix, ZqMatrix};
use crate::modular::{reduce_delta, reduce_q, sub_delta, sub_p, sub_q};
use crate::params::{Zdelta, Zp, Zq, ZqAccum, DELTA, DELTA_ZQ, H_ROWS, N, OUTPUT_ELEMENTS, Q};
use crate::preprocessing::{masks, tau_for, Block, ClientState, ServerState, Uid, MAX_TAU};
use crate::prf::{is_key_bits, prf, PrfOutput, SecretKey};

verus! {

/// Longest tag a request may carry.
pub const MAX_TAG_LEN: usize = 1024;

/// Most evaluations one request may carry.
pub const MAX_BATCH_EVALUATIONS: usize = 1024;

#[derive(Debug)]
pub enum RequestError {
    /// A request needs `needed` slots and only `have` are left.
    Exhausted { needed: usize, have: usize },
    /// The tag is `len` bytes, over `MAX_TAG_LEN`.
    TagTooLong { len: usize },
    /// A request must carry at least one evaluation.
    EmptyBatch,
    /// A batch of `len` evaluations, over `MAX_BATCH_EVALUATIONS`.
    BatchTooLarge { len: usize },
}

#[derive(Debug)]
pub enum BlindEvalError {
    /// No preprocessing state for session `uid`.
    UnknownSession { uid: Uid },
    /// A request needs `needed` slots and only `have` are left.
    Exhausted { needed: usize, have: usize },
    /// The request is malformed, for the reason given.
    Malformed(&'static str),
}

#[derive(Debug)]
#[allow(inconsistent_fields)]
pub enum FinalizeError {
    /// The response is for session `got`, the request was session `want`.
    SessionMismatch { want: Uid, got: Uid },
    /// The response is malformed, for the reason given.
    Malformed(&'static str),
    /// Response row `row` is for slot `got`, the request used slot `want`.
    CounterMismatch { row: usize, want: u64, got: u64 },
    /// The request was a batch of `len` evaluations; use `finalize_batch`.
    NotSingle { len: usize },
}

/// One row of a request: Figure 4's `((e_1, ..., e_n), b_bar')` for one base run.
#[derive(Clone, Debug)]
pub struct RowRequest {
    /// `e_i = a_i + r_i + r^ctr_{1-b_bar_i,i} mod q`, for `i` in `[N]`.
    pub e: [Zq; N],
    /// `b_bar' = (r_sigma mod DELTA - b'_ctr) mod DELTA`.
    pub b_bar_prime: Zdelta,
}

impl View for RowRequest {
    type V = (Seq<Zq>, int);

    open spec fn view(&self) -> (Seq<Zq>, int) {
        (self.e@, self.b_bar_prime as int)
    }
}

/// The request message the client sends to the server (`req` in Figure 4).
#[derive(Clone, Debug)]
pub struct RequestMessage {
    pub uid: Uid,
    /// The public tag `t`, in the clear. At most `MAX_TAG_LEN` bytes.
    pub tag: Vec<u8>,
    /// One or more evaluations end to end, so a multiple of `H_ROWS`.
    pub rows: Vec<RowRequest>,
}

impl RequestMessage {
    /// Evaluations this request carries.
    pub fn evaluations(&self) -> (r: usize)
        ensures
            r == self.rows@.len() as int / (H_ROWS as int),
    {
        self.rows.len() / H_ROWS
    }
}

/// One row of a response: Figure 4's `(y_0, ..., y_{DELTA-1})` and the slot it spent.
#[derive(Clone, Copy, Debug)]
pub struct RowResponse {
    /// `y_i = round((a_tilde_sigma - i) mod q) + r'_{(i - b_bar') mod DELTA} mod p`.
    pub y: [Zp; DELTA],
    /// The preprocessing slot this row consumed.
    pub ctr: u64,
}

impl View for RowResponse {
    type V = (Seq<Zp>, int);

    open spec fn view(&self) -> (Seq<Zp>, int) {
        (self.y@, self.ctr as int)
    }
}

/// The response message the server sends back (`rep` in Figure 4).
#[derive(Clone, Debug)]
pub struct ResponseMessage {
    pub uid: Uid,
    pub rows: Vec<RowResponse>,
}

impl ResponseMessage {
    /// Evaluations this response carries.
    pub fn evaluations(&self) -> (r: usize)
        ensures
            r == self.rows@.len() as int / (H_ROWS as int),
    {
        self.rows.len() / H_ROWS
    }
}

/// One row's `st_fin`: `(ctr, r_sigma, r'_{b'_ctr})`.
#[derive(Clone, Copy)]
pub struct RowFinalizeState {
    pub ctr: u64,
    /// `r_sigma = r_1 + ... + r_n mod q`.
    pub r_sigma: Zq,
    /// `r'_{b'_ctr}`.
    pub r_prime: Zp,
}

impl View for RowFinalizeState {
    type V = (int, int, int);

    open spec fn view(&self) -> (int, int, int) {
        (self.ctr as int, self.r_sigma as int, self.r_prime as int)
    }
}

/// State the client keeps between Request and Finalize (`st_fin` in Figure 4).
#[derive(Clone)]
pub struct FinalizeState {
    pub uid: Uid,
    pub rows: Vec<RowFinalizeState>,
}

impl FinalizeState {
    /// Evaluations this state can finalize.
    pub fn evaluations(&self) -> (r: usize)
        ensures
            r == self.rows@.len() as int / (H_ROWS as int),
    {
        self.rows.len() / H_ROWS
    }
}

// ---------------------------------------------------------------------------
// What each step computes.
// ---------------------------------------------------------------------------

/// The client's blinding mask `r^{first+k}_{b_hat_i,i}`.
pub open spec fn c_mask(c: ClientState, i: int, first: nat, k: int) -> int {
    masks(c.seed(i, c.bhat(i)), first)[k] as int
}

/// The other mask of binary OT `i`, `r^{first+k}_{1-b_hat_i,i}`.
pub open spec fn c_other_mask(c: ClientState, i: int, first: nat, k: int) -> int {
    masks(c.seed(i, 1 - c.bhat(i)), first)[k] as int
}

/// `sum_{i < n} r^{first+k}_{b_hat_i,i}`.
pub open spec fn c_mask_sum(c: ClientState, first: nat, k: int, n: int) -> int
    decreases n,
{
    if n <= 0 {
        0
    } else {
        c_mask_sum(c, first, k, n - 1) + c_mask(c, n - 1, first, k)
    }
}

/// `r_sigma` of row `k` of the evaluation starting at slot `first`.
pub open spec fn request_r_sigma(c: ClientState, first: nat, k: int) -> int {
    c_mask_sum(c, first, k, N as int) % (Q as int)
}

/// `e` of row `k`, blinding the hash row `a`.
pub open spec fn request_e(c: ClientState, a: Seq<Zq>, first: nat, k: int) -> Seq<Zq> {
    Seq::new(
        N as nat,
        |i: int| ((a[i] + c_mask(c, i, first, k) + c_other_mask(c, i, first, k)) % (Q as int)) as Zq,
    )
}

/// Row `k` of Figure 4's Request for the hash row `a`: `(e, b_bar')`.
pub open spec fn request_row(c: ClientState, a: Seq<Zq>, first: nat, k: int) -> (Seq<Zq>, int) {
    (
        request_e(c, a, first, k),
        (request_r_sigma(c, first, k) % (DELTA as int) - c.b_prime(first + k)) % (DELTA as int),
    )
}

/// The `st_fin` Request keeps for row `k`: `(ctr, r_sigma, r'_{b'_ctr})`.
pub open spec fn request_fin_row(c: ClientState, first: nat, k: int) -> (int, int, int) {
    (first + k, request_r_sigma(c, first, k), c.r_prime(first + k))
}

/// The inputs of a batch, as byte strings.
pub open spec fn inputs_view(inputs: &[&[u8]]) -> Seq<Seq<u8>> {
    inputs@.map_values(|x: &[u8]| x@)
}

/// The rows of a request for `inputs` under `tag`: evaluation `e` spends
/// slots `ctr + 16e ..`, one per row of its hash matrix.
pub open spec fn request_rows(c: ClientState, tag: Seq<u8>, inputs: Seq<Seq<u8>>) -> Seq<(Seq<Zq>, int)> {
    Seq::new(
        (H_ROWS * inputs.len()) as nat,
        |j: int|
            request_row(
                c,
                ro_matrix(tag, inputs[j / (H_ROWS as int)])[j % (H_ROWS as int)],
                (c.ctr() + H_ROWS * (j / (H_ROWS as int))) as nat,
                j % (H_ROWS as int),
            ),
    )
}

/// The `st_fin` rows of a request for `n` evaluations.
pub open spec fn request_fin_rows(c: ClientState, n: nat) -> Seq<(int, int, int)> {
    Seq::new(
        (H_ROWS * n) as nat,
        |j: int|
            request_fin_row(
                c,
                (c.ctr() + H_ROWS * (j / (H_ROWS as int))) as nat,
                j % (H_ROWS as int),
            ),
    )
}

/// Two client states with the same material compute the same rows.
proof fn lemma_same_material_rows(c1: ClientState, c2: ClientState, a: Seq<Zq>, first: nat, k: int)
    requires
        forall|i: int, side: int| #[trigger] c1.seed(i, side) == c2.seed(i, side),
        forall|i: int| #[trigger] c1.bhat(i) == c2.bhat(i),
        forall|j: int| #[trigger] c1.b_prime(j) == c2.b_prime(j),
        forall|j: int| #[trigger] c1.r_prime(j) == c2.r_prime(j),
    ensures
        request_row(c1, a, first, k) == request_row(c2, a, first, k),
        request_fin_row(c1, first, k) == request_fin_row(c2, first, k),
{
    assert forall|n: int| c_mask_sum(c1, first, k, n) == c_mask_sum(c2, first, k, n) by {
        lemma_same_material_sum(c1, c2, first, k, n);
    }
    assert(request_e(c1, a, first, k) =~= request_e(c2, a, first, k));
}

proof fn lemma_same_material_sum(c1: ClientState, c2: ClientState, first: nat, k: int, n: int)
    requires
        forall|i: int, side: int| #[trigger] c1.seed(i, side) == c2.seed(i, side),
        forall|i: int| #[trigger] c1.bhat(i) == c2.bhat(i),
    ensures
        c_mask_sum(c1, first, k, n) == c_mask_sum(c2, first, k, n),
    decreases n,
{
    if n > 0 {
        lemma_same_material_sum(c1, c2, first, k, n - 1);
        assert(c_mask(c1, n - 1, first, k) == c_mask(c2, n - 1, first, k));
    }
}

proof fn lemma_c_mask_sum_bounds(c: ClientState, first: nat, k: int, n: int)
    requires
        0 <= k < H_ROWS,
    ensures
        0 <= c_mask_sum(c, first, k, n),
        n >= 0 ==> c_mask_sum(c, first, k, n) <= n * (Q - 1),
    decreases n,
{
    if n > 0 {
        lemma_c_mask_sum_bounds(c, first, k, n - 1);
        assert(masks(c.seed(n - 1, c.bhat(n - 1)), first)[k] < Q);
    }
}

// ---------------------------------------------------------------------------
// Request.
// ---------------------------------------------------------------------------

/// The `H_ROWS` base runs of Figure 4's Request for one evaluation, on slots
/// `first_slot .. first_slot + H_ROWS`, appended to `rows` and `fin_rows`.
fn request_evaluation(
    state: &ClientState,
    first_slot: u64,
    m: &ZqMatrix,
    rows: &mut Vec<RowRequest>,
    fin_rows: &mut Vec<RowFinalizeState>,
)
    requires
        state.wf(),
        first_slot + H_ROWS <= state.tau(),
    ensures
        final(rows)@.map_values(|r: RowRequest| r@) == old(rows)@.map_values(|r: RowRequest| r@)
            + Seq::new(
            H_ROWS as nat,
            |k: int| request_row(*state, m@[k], first_slot as nat, k),
        ),
        final(fin_rows)@.map_values(|r: RowFinalizeState| r@) == old(fin_rows)@.map_values(
            |r: RowFinalizeState| r@,
        ) + Seq::new(H_ROWS as nat, |k: int| request_fin_row(*state, first_slot as nat, k)),
{
    proof {
        state.lemma_wf();
    }
    // The masks of every coordinate, for all H_ROWS slots at once.
    let mut r_bhats: Vec<[Zq; H_ROWS]> = Vec::new();
    let mut r_not_bhats: Vec<[Zq; H_ROWS]> = Vec::new();
    let mut i: usize = 0;
    while i < N
        invariant
            state.wf(),
            first_slot < MAX_TAU,
            i <= N,
            r_bhats@.len() == i,
            r_not_bhats@.len() == i,
            forall|j: int| 0 <= j < i ==> (#[trigger] r_bhats@[j])@ == masks(
                state.seed(j, state.bhat(j)),
                first_slot as nat,
            ),
            forall|j: int| 0 <= j < i ==> (#[trigger] r_not_bhats@[j])@ == masks(
                state.seed(j, 1 - state.bhat(j)),
                first_slot as nat,
            ),
        decreases N - i,
    {
        r_bhats.push(state.r_bhat(i, first_slot));
        r_not_bhats.push(state.r_not_bhat(i, first_slot));
        i = i + 1;
    }

    let ghost rows0 = rows@.map_values(|r: RowRequest| r@);
    let ghost fin0 = fin_rows@.map_values(|r: RowFinalizeState| r@);
    let mut k: usize = 0;
    while k < H_ROWS
        invariant
            state.wf(),
            first_slot + H_ROWS <= state.tau(),
            first_slot < MAX_TAU,
            k <= H_ROWS,
            r_bhats@.len() == N,
            r_not_bhats@.len() == N,
            forall|j: int| 0 <= j < N ==> (#[trigger] r_bhats@[j])@ == masks(
                state.seed(j, state.bhat(j)),
                first_slot as nat,
            ),
            forall|j: int| 0 <= j < N ==> (#[trigger] r_not_bhats@[j])@ == masks(
                state.seed(j, 1 - state.bhat(j)),
                first_slot as nat,
            ),
            rows@.map_values(|r: RowRequest| r@) == rows0 + Seq::new(
                k as nat,
                |kk: int| request_row(*state, m@[kk], first_slot as nat, kk),
            ),
            fin_rows@.map_values(|r: RowFinalizeState| r@) == fin0 + Seq::new(
                k as nat,
                |kk: int| request_fin_row(*state, first_slot as nat, kk),
            ),
        decreases H_ROWS - k,
    {
        proof {
            state.lemma_wf();
        }
        let a = m.row(k).as_slice();
        let mut e = [0u16; 482];
        let mut acc: ZqAccum = 0;
        let mut i: usize = 0;
        while i < N
            invariant
                k < H_ROWS,
                first_slot < MAX_TAU,
                is_zq_row(a@),
                a@ == m@[k as int],
                i <= N,
                r_bhats@.len() == N,
                r_not_bhats@.len() == N,
                forall|j: int| 0 <= j < N ==> (#[trigger] r_bhats@[j])@ == masks(
                    state.seed(j, state.bhat(j)),
                    first_slot as nat,
                ),
                forall|j: int| 0 <= j < N ==> (#[trigger] r_not_bhats@[j])@ == masks(
                    state.seed(j, 1 - state.bhat(j)),
                    first_slot as nat,
                ),
                e@.len() == N,
                forall|j: int| 0 <= j < i ==> #[trigger] e@[j] == request_e(
                    *state,
                    a@,
                    first_slot as nat,
                    k as int,
                )[j],
                acc == c_mask_sum(*state, first_slot as nat, k as int, i as int),
            decreases N - i,
        {
            let rb = r_bhats[i][k];
            let rnb = r_not_bhats[i][k];
            proof {
                lemma_c_mask_sum_bounds(*state, first_slot as nat, k as int, i as int);
                assert(masks(state.seed(i as int, state.bhat(i as int)), first_slot as nat)[k as int] < Q);
                assert(masks(state.seed(i as int, 1 - state.bhat(i as int)), first_slot as nat)[k as int]
                    < Q);
            }
            e[i] = reduce_q(a[i] as ZqAccum + rb as ZqAccum + rnb as ZqAccum);
            acc = acc + rb as ZqAccum;
            i = i + 1;
        }
        assert(e@ =~= request_e(*state, m@[k as int], first_slot as nat, k as int));

        let ctr = first_slot + k as u64;
        let r_sigma = reduce_q(acc);
        let rc = state.r_c(ctr);
        let b_bar_prime = sub_delta(reduce_delta(r_sigma), rc.b_prime);

        let ghost rows_prev = rows@.map_values(|r: RowRequest| r@);
        let ghost fin_prev = fin_rows@.map_values(|r: RowFinalizeState| r@);
        let row = RowRequest { e, b_bar_prime };
        assert(row@ == request_row(*state, m@[k as int], first_slot as nat, k as int));
        let fin_row = RowFinalizeState { ctr, r_sigma, r_prime: rc.r_prime };
        assert(fin_row@ == request_fin_row(*state, first_slot as nat, k as int));
        rows.push(row);
        fin_rows.push(fin_row);
        proof {
            assert(rows@.map_values(|r: RowRequest| r@) =~= rows_prev.push(
                request_row(*state, m@[k as int], first_slot as nat, k as int),
            ));
            assert(fin_rows@.map_values(|r: RowFinalizeState| r@) =~= fin_prev.push(
                request_fin_row(*state, first_slot as nat, k as int),
            ));
            assert(rows@.map_values(|r: RowRequest| r@) =~= rows0 + Seq::new(
                (k + 1) as nat,
                |kk: int| request_row(*state, m@[kk], first_slot as nat, kk),
            ));
            assert(fin_rows@.map_values(|r: RowFinalizeState| r@) =~= fin0 + Seq::new(
                (k + 1) as nat,
                |kk: int| request_fin_row(*state, first_slot as nat, kk),
            ));
        }
        k = k + 1;
    }
}

/// Figure 4's Request, for a batch of inputs under one tag.
///
/// Fails, spending nothing, if the tag is over `MAX_TAG_LEN`, the batch is
/// empty or over `MAX_BATCH_EVALUATIONS`, or the state has fewer than
/// `H_ROWS` slots left per input. Otherwise it spends `H_ROWS` slots per
/// input, in order.
pub fn request_batch(state: &mut ClientState, tag: &[u8], inputs: &[&[u8]]) -> (r: Result<
    (RequestMessage, FinalizeState),
    RequestError,
>)
    requires
        old(state).wf(),
    ensures
        final(state).wf(),
        match r {
            Err(RequestError::TagTooLong { len }) => tag@.len() > MAX_TAG_LEN && len == tag@.len(),
            Err(RequestError::EmptyBatch) => tag@.len() <= MAX_TAG_LEN && inputs@.len() == 0,
            Err(RequestError::BatchTooLarge { len }) => tag@.len() <= MAX_TAG_LEN && inputs@.len()
                > MAX_BATCH_EVALUATIONS && len == inputs@.len(),
            Err(RequestError::Exhausted { needed, have }) => {
                &&& tag@.len() <= MAX_TAG_LEN
                &&& 1 <= inputs@.len() <= MAX_BATCH_EVALUATIONS
                &&& needed == H_ROWS * inputs@.len()
                &&& have == old(state).tau() - old(state).ctr()
                &&& have < needed
            },
            Ok((msg, fin)) => {
                &&& tag@.len() <= MAX_TAG_LEN
                &&& 1 <= inputs@.len() <= MAX_BATCH_EVALUATIONS
                &&& old(state).tau() - old(state).ctr() >= H_ROWS * inputs@.len()
                &&& msg.uid@ == old(state).uid_view()
                &&& msg.tag@ == tag@
                &&& msg.rows@.map_values(|r: RowRequest| r@) == request_rows(
                    *old(state),
                    tag@,
                    inputs_view(inputs),
                )
                &&& fin.uid@ == old(state).uid_view()
                &&& fin.rows@.map_values(|r: RowFinalizeState| r@) == request_fin_rows(
                    *old(state),
                    inputs@.len(),
                )
            },
        },
        r is Err ==> ClientState::advanced(*old(state), *final(state), 0),
        r is Ok ==> ClientState::advanced(*old(state), *final(state), (H_ROWS * inputs@.len()) as nat),
{
    proof {
        ClientState::lemma_advanced_refl(*state);
    }
    if tag.len() > MAX_TAG_LEN {
        return Err(RequestError::TagTooLong { len: tag.len() });
    }
    if inputs.len() == 0 {
        return Err(RequestError::EmptyBatch);
    }
    if inputs.len() > MAX_BATCH_EVALUATIONS {
        return Err(RequestError::BatchTooLarge { len: inputs.len() });
    }
    let needed_slots = tau_for(inputs.len());
    let have_slots = state.remaining_slots();
    if have_slots < needed_slots {
        return Err(RequestError::Exhausted { needed: needed_slots, have: have_slots });
    }

    let ghost c0 = *state;
    let ghost ins = inputs_view(inputs);
    let mut uid = [0u8; 16];
    copy_uid(&mut uid, state.uid());
    let mut rows: Vec<RowRequest> = Vec::new();
    let mut fin_rows: Vec<RowFinalizeState> = Vec::new();
    let mut e: usize = 0;
    while e < inputs.len()
        invariant
            state.wf(),
            c0.wf(),
            ins == inputs_view(inputs),
            e <= inputs@.len(),
            inputs@.len() <= MAX_BATCH_EVALUATIONS,
            c0.tau() - c0.ctr() >= H_ROWS * inputs@.len(),
            ClientState::advanced(c0, *state, (H_ROWS * e) as nat),
            rows@.map_values(|r: RowRequest| r@) == request_rows(c0, tag@, ins).take(
                H_ROWS * e,
            ),
            fin_rows@.map_values(|r: RowFinalizeState| r@) == request_fin_rows(
                c0,
                inputs@.len(),
            ).take(H_ROWS * e),
        decreases inputs@.len() - e,
    {
        let m = hash_to_zq_matrix(tag, inputs[e]);
        let ghost before = *state;
        proof {
            ClientState::lemma_advanced(c0, before, (H_ROWS * e) as nat);
            before.lemma_wf();
        }
        let first_slot = match state.next_slots(H_ROWS) {
            Some(first) => first,
            None => {
                proof {
                    assert(false);
                }
                0
            },
        };
        let ghost rows_before = rows@.map_values(|r: RowRequest| r@);
        let ghost fin_before = fin_rows@.map_values(|r: RowFinalizeState| r@);
        proof {
            ClientState::lemma_advanced(before, *state, H_ROWS as nat);
            ClientState::lemma_advanced_trans(c0, before, *state, (H_ROWS * e) as nat, H_ROWS as nat);
        }
        request_evaluation(state, first_slot, &m, &mut rows, &mut fin_rows);
        proof {
            ClientState::lemma_advanced(c0, *state, (H_ROWS * (e + 1)) as nat);
            assert(ins[e as int] == inputs@[e as int]@);
            assert(m@ == ro_matrix(tag@, ins[e as int]));
            assert(first_slot == c0.ctr() + H_ROWS * e);
            assert forall|kk: int| 0 <= kk < H_ROWS implies request_row(
                *state,
                m@[kk],
                first_slot as nat,
                kk,
            ) == request_rows(c0, tag@, ins)[H_ROWS * e + kk] && request_fin_row(
                *state,
                first_slot as nat,
                kk,
            ) == request_fin_rows(c0, inputs@.len())[H_ROWS * e + kk] by {
                lemma_same_material_rows(*state, c0, m@[kk], first_slot as nat, kk);
                assert((H_ROWS * e + kk) / (H_ROWS as int) == e);
                assert((H_ROWS * e + kk) % (H_ROWS as int) == kk);
            }
            let ghost new_rows = Seq::new(
                H_ROWS as nat,
                |kk: int| request_row(*state, m@[kk], first_slot as nat, kk),
            );
            assert(rows@.map_values(|r: RowRequest| r@) == rows_before + new_rows);
            assert(rows_before == request_rows(c0, tag@, ins).take(H_ROWS * e));
            let ghost now_rows = rows@.map_values(|r: RowRequest| r@);
            assert forall|j: int| 0 <= j < H_ROWS * (e + 1) implies #[trigger] now_rows[j]
                == request_rows(c0, tag@, ins)[j] by {
                if j >= H_ROWS * e {
                    let kk = j - H_ROWS * e;
                    lemma_same_material_rows(*state, c0, m@[kk], first_slot as nat, kk);
                    assert((H_ROWS * e + kk) / (H_ROWS as int) == e);
                    assert((H_ROWS * e + kk) % (H_ROWS as int) == kk);
                    assert(new_rows[kk] == request_row(*state, m@[kk], first_slot as nat, kk));
                    assert(new_rows[kk] == request_rows(c0, tag@, ins)[H_ROWS * e + kk]);
                }
            }
            assert(rows@.map_values(|r: RowRequest| r@) =~= request_rows(c0, tag@, ins).take(
                H_ROWS * (e + 1),
            ));
            assert(fin_rows@.map_values(|r: RowFinalizeState| r@) =~= request_fin_rows(
                c0,
                inputs@.len(),
            ).take(H_ROWS * (e + 1)));
        }
        e = e + 1;
    }
    proof {
        assert(request_rows(c0, tag@, ins).take(H_ROWS * e) =~= request_rows(c0, tag@, ins));
        assert(request_fin_rows(c0, inputs@.len()).take(H_ROWS * e) =~= request_fin_rows(
            c0,
            inputs@.len(),
        ));
    }
    let mut tag_copy: Vec<u8> = Vec::new();
    crate::blake::extend_from(&mut tag_copy, tag);
    assert(tag_copy@ =~= tag@);
    let fin_uid = uid;
    Ok((RequestMessage { uid, tag: tag_copy, rows }, FinalizeState { uid: fin_uid, rows: fin_rows }))
}

/// A copy of a session identifier.
fn copy_uid(dst: &mut Uid, src: &Uid)
    ensures
        final(dst)@ == src@,
{
    let mut i: usize = 0;
    while i < 16
        invariant
            i <= 16,
            dst@.len() == 16,
            forall|j: int| 0 <= j < i ==> #[trigger] dst@[j] == src@[j],
        decreases 16 - i,
    {
        dst[i] = src[i];
        i = i + 1;
    }
    assert(dst@ =~= src@);
}

/// Build a request for public tag `tag` and private input `x` - the
/// one-input case of `request_batch`.
pub fn request(state: &mut ClientState, tag: &[u8], x: &[u8]) -> (r: Result<
    (RequestMessage, FinalizeState),
    RequestError,
>)
    requires
        old(state).wf(),
    ensures
        final(state).wf(),
        match r {
            Err(RequestError::TagTooLong { len }) => tag@.len() > MAX_TAG_LEN && len == tag@.len(),
            Err(RequestError::Exhausted { needed, have }) => {
                &&& tag@.len() <= MAX_TAG_LEN
                &&& needed == H_ROWS
                &&& have == old(state).tau() - old(state).ctr()
                &&& have < needed
            },
            Err(_) => false,
            Ok((msg, fin)) => {
                &&& tag@.len() <= MAX_TAG_LEN
                &&& old(state).tau() - old(state).ctr() >= H_ROWS
                &&& msg.uid@ == old(state).uid_view()
                &&& msg.tag@ == tag@
                &&& msg.rows@.map_values(|r: RowRequest| r@) == request_rows(
                    *old(state),
                    tag@,
                    seq![x@],
                )
                &&& fin.uid@ == old(state).uid_view()
                &&& fin.rows@.map_values(|r: RowFinalizeState| r@) == request_fin_rows(
                    *old(state),
                    1,
                )
            },
        },
        r is Err ==> ClientState::advanced(*old(state), *final(state), 0),
        r is Ok ==> ClientState::advanced(*old(state), *final(state), H_ROWS as nat),
{
    let inputs: [&[u8]; 1] = [x];
    let batch = inputs.as_slice();
    assert(inputs_view(batch) =~= seq![x@]);
    request_batch(state, tag, batch)
}


// ---------------------------------------------------------------------------
// BlindEval.
// ---------------------------------------------------------------------------

/// The server's mask `r^{first+k}_{b_i,i}`.
pub open spec fn s_mask(s: ServerState, i: int, first: nat, k: int) -> int {
    masks(s.seed(i), first)[k] as int
}

/// `a_tilde_i`: the mask if `sk_i = 0`, and `e_i` minus the mask if `sk_i = 1`.
pub open spec fn blind_term(s: ServerState, sk: Seq<u8>, e: Seq<Zq>, i: int, first: nat, k: int) -> int {
    if sk[i] == 0 {
        s_mask(s, i, first, k)
    } else {
        (e[i] - s_mask(s, i, first, k)) % (Q as int)
    }
}

/// `sum_{i < n} a_tilde_i`.
pub open spec fn blind_sum(s: ServerState, sk: Seq<u8>, e: Seq<Zq>, first: nat, k: int, n: int) -> int
    decreases n,
{
    if n <= 0 {
        0
    } else {
        blind_sum(s, sk, e, first, k, n - 1) + blind_term(s, sk, e, n - 1, first, k)
    }
}

/// `a_tilde_sigma`, reduced mod q.
pub open spec fn a_sigma(s: ServerState, sk: Seq<u8>, e: Seq<Zq>, first: nat, k: int) -> int {
    blind_sum(s, sk, e, first, k, N as int) % (Q as int)
}

/// Row `k` of Figure 4's BlindEval for the request row `row`, on slot
/// `first + k`: the response and the slot.
pub open spec fn blind_row(s: ServerState, sk: Seq<u8>, row: (Seq<Zq>, int), first: nat, k: int) -> (Seq<Zp>, int) {
    (response_spec(a_sigma(s, sk, row.0, first, k), s.pads(first + k), row.1), first + k)
}

/// The response rows to `rows`: evaluation `e` spends slots `ctr + 16e ..`.
pub open spec fn blind_rows(s: ServerState, sk: Seq<u8>, rows: Seq<(Seq<Zq>, int)>) -> Seq<(Seq<Zp>, int)> {
    Seq::new(
        rows.len(),
        |j: int|
            blind_row(
                s,
                sk,
                rows[j],
                (s.ctr() + H_ROWS * (j / (H_ROWS as int))) as nat,
                j % (H_ROWS as int),
            ),
    )
}

/// A request row the server can answer: `N` reduced entries and `b_bar'` in
/// `0 .. DELTA`.
pub open spec fn row_well_formed(row: (Seq<Zq>, int)) -> bool {
    &&& row.0.len() == N
    &&& forall|i: int| 0 <= i < row.0.len() ==> #[trigger] row.0[i] < Q
    &&& 0 <= row.1 < DELTA
}

/// A request the server refuses as malformed.
pub open spec fn request_malformed(tag: Seq<u8>, rows: Seq<(Seq<Zq>, int)>) -> bool {
    ||| tag.len() > MAX_TAG_LEN
    ||| rows.len() == 0
    ||| rows.len() as int % (H_ROWS as int) != 0
    ||| rows.len() as int / (H_ROWS as int) > MAX_BATCH_EVALUATIONS
    ||| exists|j: int| 0 <= j < rows.len() && !row_well_formed(#[trigger] rows[j])
}

/// Why a row is ill-formed: an `e` entry outside Z_q is named before a
/// `b_bar'` outside `[0, DELTA)`.
pub open spec fn row_fault(row: (Seq<Zq>, int)) -> &'static str {
    if exists|i: int| 0 <= i < row.0.len() && #[trigger] row.0[i] >= Q {
        "e has an element outside Zq"
    } else {
        "b_bar' is outside [0, DELTA)"
    }
}

/// Whether `j` is the first ill-formed row.
pub open spec fn first_bad_row(rows: Seq<(Seq<Zq>, int)>, j: int) -> bool {
    &&& 0 <= j < rows.len()
    &&& !row_well_formed(rows[j])
    &&& forall|jj: int| 0 <= jj < j ==> row_well_formed(#[trigger] rows[jj])
}

/// The reason the server gives for a malformed request: the first check that
/// fails, in the order tag length, row count, batch size, then the first
/// ill-formed row.
pub open spec fn malformed_reason(tag: Seq<u8>, rows: Seq<(Seq<Zq>, int)>) -> &'static str {
    if tag.len() > MAX_TAG_LEN {
        "tag is longer than MAX_TAG_LEN"
    } else if rows.len() == 0 || rows.len() as int % (H_ROWS as int) != 0 {
        "row count is not a whole number of evaluations"
    } else if rows.len() as int / (H_ROWS as int) > MAX_BATCH_EVALUATIONS {
        "batch is larger than MAX_BATCH_EVALUATIONS"
    } else {
        row_fault(rows[choose|j: int| first_bad_row(rows, j)])
    }
}

/// Whether two session identifiers are the same.
pub fn uid_eq(a: &Uid, b: &Uid) -> (r: bool)
    ensures
        r == (a@ == b@),
{
    let mut i: usize = 0;
    while i < 16
        invariant
            i <= 16,
            a@.len() == 16,
            b@.len() == 16,
            forall|j: int| 0 <= j < i ==> a@[j] == b@[j],
        decreases 16 - i,
    {
        if a[i] != b[i] {
            return false;
        }
        i = i + 1;
    }
    assert(a@ =~= b@);
    true
}

/// Whether the server can answer every row of `rows`, and if not, why.
fn check_rows(rows: &Vec<RowRequest>) -> (r: Option<&'static str>)
    ensures
        r is None <==> forall|j: int| 0 <= j < rows@.len() ==> row_well_formed(#[trigger] rows@[j]@),
        r matches Some(reason) ==> exists|j: int|
            first_bad_row(rows@.map_values(|x: RowRequest| x@), j) && reason == row_fault(
                #[trigger] rows@[j]@,
            ),
{
    let ghost views = rows@.map_values(|x: RowRequest| x@);
    let mut j: usize = 0;
    while j < rows.len()
        invariant
            j <= rows@.len(),
            views == rows@.map_values(|x: RowRequest| x@),
            forall|jj: int| 0 <= jj < j ==> row_well_formed(#[trigger] rows@[jj]@),
        decreases rows@.len() - j,
    {
        let row = &rows[j];
        let mut i: usize = 0;
        while i < N
            invariant
                i <= N,
                j < rows@.len(),
                views == rows@.map_values(|x: RowRequest| x@),
                forall|jj: int| 0 <= jj < j ==> row_well_formed(#[trigger] rows@[jj]@),
                *row == rows@[j as int],
                row.e@.len() == N,
                forall|ii: int| 0 <= ii < i ==> row.e@[ii] < Q,
            decreases N - i,
        {
            if row.e[i] >= Q {
                assert(!row_well_formed(rows@[j as int]@));
                proof {
                    assert(views[j as int] == rows@[j as int]@);
                    assert forall|jj: int| 0 <= jj < j implies row_well_formed(#[trigger] views[jj]) by {
                        assert(views[jj] == rows@[jj]@);
                    }
                    assert(first_bad_row(views, j as int));
                    assert(row.e@[i as int] >= Q);
                }
                return Some("e has an element outside Zq");
            }
            i = i + 1;
        }
        if row.b_bar_prime as usize >= DELTA {
            assert(!row_well_formed(rows@[j as int]@));
            proof {
                assert(views[j as int] == rows@[j as int]@);
                assert forall|jj: int| 0 <= jj < j implies row_well_formed(#[trigger] views[jj]) by {
                    assert(views[jj] == rows@[jj]@);
                }
                assert(first_bad_row(views, j as int));
            }
            return Some("b_bar' is outside [0, DELTA)");
        }
        j = j + 1;
    }
    None
}

proof fn lemma_blind_sum_bounds(s: ServerState, sk: Seq<u8>, e: Seq<Zq>, first: nat, k: int, n: int)
    requires
        0 <= k < H_ROWS,
    ensures
        0 <= blind_sum(s, sk, e, first, k, n),
        n >= 0 ==> blind_sum(s, sk, e, first, k, n) <= n * (Q - 1),
    decreases n,
{
    if n > 0 {
        lemma_blind_sum_bounds(s, sk, e, first, k, n - 1);
        assert(masks(s.seed(n - 1), first)[k] < Q);
    }
}

/// The `H_ROWS` base runs of Figure 4's BlindEval for the evaluation whose
/// rows start at `offset`, on slots `first_slot .. first_slot + H_ROWS`,
/// appended to `out`.
fn blind_eval_evaluation(
    state: &ServerState,
    sk_bits: &[u8; N],
    reqs: &Vec<RowRequest>,
    offset: usize,
    first_slot: u64,
    out: &mut Vec<RowResponse>,
)
    requires
        state.wf(),
        is_key_bits(sk_bits@),
        offset + H_ROWS <= reqs@.len(),
        forall|j: int| 0 <= j < reqs@.len() ==> row_well_formed(#[trigger] reqs@[j]@),
        first_slot + H_ROWS <= state.tau(),
    ensures
        final(out)@.map_values(|r: RowResponse| r@) == old(out)@.map_values(|r: RowResponse| r@)
            + Seq::new(
            H_ROWS as nat,
            |k: int| blind_row(*state, sk_bits@, reqs@[offset + k]@, first_slot as nat, k),
        ),
{
    proof {
        state.lemma_wf();
    }
    let mut rs: Vec<[Zq; H_ROWS]> = Vec::new();
    let mut i: usize = 0;
    while i < N
        invariant
            state.wf(),
            first_slot < MAX_TAU,
            i <= N,
            rs@.len() == i,
            forall|j: int| 0 <= j < i ==> (#[trigger] rs@[j])@ == masks(state.seed(j), first_slot as nat),
        decreases N - i,
    {
        rs.push(state.r(i, first_slot));
        i = i + 1;
    }

    let ghost out0 = out@.map_values(|r: RowResponse| r@);
    let mut k: usize = 0;
    while k < H_ROWS
        invariant
            state.wf(),
            is_key_bits(sk_bits@),
            offset + H_ROWS <= reqs@.len(),
            forall|j: int| 0 <= j < reqs@.len() ==> row_well_formed(#[trigger] reqs@[j]@),
            first_slot + H_ROWS <= state.tau(),
            first_slot < MAX_TAU,
            k <= H_ROWS,
            rs@.len() == N,
            forall|j: int| 0 <= j < N ==> (#[trigger] rs@[j])@ == masks(state.seed(j), first_slot as nat),
            out@.map_values(|r: RowResponse| r@) == out0 + Seq::new(
                k as nat,
                |kk: int| blind_row(*state, sk_bits@, reqs@[offset + kk]@, first_slot as nat, kk),
            ),
        decreases H_ROWS - k,
    {
        proof {
            state.lemma_wf();
        }
        let n_reqs = reqs.len();
        assert(offset + k < n_reqs);
        let idx = offset + k;
        let req = &reqs[idx];
        assert(row_well_formed(reqs@[offset + k]@));
        let mut acc: ZqAccum = 0;
        let mut i: usize = 0;
        while i < N
            invariant
                k < H_ROWS,
                first_slot < MAX_TAU,
                is_key_bits(sk_bits@),
                row_well_formed(req@),
                i <= N,
                rs@.len() == N,
                forall|j: int| 0 <= j < N ==> (#[trigger] rs@[j])@ == masks(state.seed(j), first_slot as nat),
                acc == blind_sum(*state, sk_bits@, req.e@, first_slot as nat, k as int, i as int),
            decreases N - i,
        {
            let r_k = rs[i][k];
            let s = sk_bits[i] as ZqAccum;
            proof {
                lemma_blind_sum_bounds(*state, sk_bits@, req.e@, first_slot as nat, k as int, i as int);
                assert(masks(state.seed(i as int), first_slot as nat)[k as int] < Q);
                assert(req.e@[i as int] < Q);
            }
            let a_tilde_0 = r_k as ZqAccum;
            let a_tilde_1 = sub_q(req.e[i], r_k) as ZqAccum;
            assert(a_tilde_0 * (1 - s) <= a_tilde_0 && a_tilde_1 * s <= a_tilde_1) by (nonlinear_arith)
                requires
                    s <= 1,
            ;
            let term = a_tilde_0 * (1 - s) + a_tilde_1 * s;
            proof {
                assert(term == if s == 0 { a_tilde_0 } else { a_tilde_1 }) by (nonlinear_arith)
                    requires
                        term == a_tilde_0 * (1 - s) + a_tilde_1 * s,
                        s <= 1,
                ;
                assert(term == blind_term(*state, sk_bits@, req.e@, i as int, first_slot as nat, k as int));
            }
            acc = acc + term;
            i = i + 1;
        }

        let ctr = first_slot + k as u64;
        let a_sigma_val = reduce_q(acc);
        let pads = state.s_s(ctr);
        let y = respond(a_sigma_val, pads, req.b_bar_prime);
        let row = RowResponse { y, ctr };
        assert(row@ == blind_row(*state, sk_bits@, reqs@[offset + k]@, first_slot as nat, k as int));
        let ghost out_prev = out@.map_values(|r: RowResponse| r@);
        out.push(row);
        proof {
            assert(out@.map_values(|r: RowResponse| r@) =~= out_prev.push(row@));
            assert(out@.map_values(|r: RowResponse| r@) =~= out0 + Seq::new(
                (k + 1) as nat,
                |kk: int| blind_row(*state, sk_bits@, reqs@[offset + kk]@, first_slot as nat, kk),
            ));
        }
        k = k + 1;
    }
}

/// Figure 4's BlindEval.
///
/// Refuses, spending nothing, a request for another session, a malformed
/// one, or one that needs more slots than are left. Otherwise it spends one
/// slot per row, in order.
pub fn blind_eval(state: &mut ServerState, sk: &SecretKey, req: &RequestMessage) -> (r: Result<
    ResponseMessage,
    BlindEvalError,
>)
    requires
        old(state).wf(),
    ensures
        final(state).wf(),
        match r {
            Err(BlindEvalError::UnknownSession { uid }) => req.uid@ != old(state).uid_view() && uid
                == req.uid,
            Err(BlindEvalError::Malformed(reason)) => req.uid@ == old(state).uid_view()
                && request_malformed(req.tag@, req.rows@.map_values(|r: RowRequest| r@)) && reason
                == malformed_reason(req.tag@, req.rows@.map_values(|r: RowRequest| r@)),
            Err(BlindEvalError::Exhausted { needed, have }) => {
                &&& req.uid@ == old(state).uid_view()
                &&& !request_malformed(req.tag@, req.rows@.map_values(|r: RowRequest| r@))
                &&& needed == req.rows@.len()
                &&& have == old(state).tau() - old(state).ctr()
                &&& have < needed
            },
            Ok(resp) => {
                &&& req.uid@ == old(state).uid_view()
                &&& !request_malformed(req.tag@, req.rows@.map_values(|r: RowRequest| r@))
                &&& old(state).tau() - old(state).ctr() >= req.rows@.len()
                &&& resp.uid@ == old(state).uid_view()
                &&& resp.rows@.map_values(|r: RowResponse| r@) == blind_rows(
                    *old(state),
                    sk@,
                    req.rows@.map_values(|r: RowRequest| r@),
                )
            },
        },
        r is Err ==> ServerState::advanced(*old(state), *final(state), 0),
        r is Ok ==> ServerState::advanced(*old(state), *final(state), req.rows@.len()),
{
    proof {
        ServerState::lemma_advanced_refl(*state);
    }
    let ghost reqs = req.rows@.map_values(|r: RowRequest| r@);
    if !uid_eq(&req.uid, state.uid()) {
        return Err(BlindEvalError::UnknownSession { uid: req.uid });
    }
    if req.tag.len() > MAX_TAG_LEN {
        return Err(BlindEvalError::Malformed("tag is longer than MAX_TAG_LEN"));
    }
    if req.rows.len() == 0 || req.rows.len() % H_ROWS != 0 {
        return Err(BlindEvalError::Malformed("row count is not a whole number of evaluations"));
    }
    if req.evaluations() > MAX_BATCH_EVALUATIONS {
        return Err(BlindEvalError::Malformed("batch is larger than MAX_BATCH_EVALUATIONS"));
    }
    match check_rows(&req.rows) {
        Some(reason) => {
            proof {
                let j = choose|j: int| first_bad_row(reqs, j) && reason == row_fault(
                    #[trigger] req.rows@[j]@,
                );
                assert(reqs[j] == req.rows@[j]@);
                let jc = choose|j: int| first_bad_row(reqs, j);
                assert(first_bad_row(reqs, jc));
                if jc < j {
                    assert(row_well_formed(reqs[jc]));
                } else if jc > j {
                    assert(row_well_formed(reqs[j]));
                }
                assert(jc == j);
            }
            return Err(BlindEvalError::Malformed(reason));
        },
        None => {},
    }
    proof {
        assert forall|j: int| 0 <= j < reqs.len() implies row_well_formed(#[trigger] reqs[j]) by {
            assert(reqs[j] == req.rows@[j]@);
        }
    }
    let needed_slots = req.rows.len();
    let have_slots = state.remaining_slots();
    if have_slots < needed_slots {
        return Err(BlindEvalError::Exhausted { needed: needed_slots, have: have_slots });
    }

    let ghost s0 = *state;
    let sk_bits = sk.as_bits();
    let evaluations = req.evaluations();
    let mut rows: Vec<RowResponse> = Vec::new();
    let mut e: usize = 0;
    while e < evaluations
        invariant
            state.wf(),
            s0.wf(),
            is_key_bits(sk_bits@),
            sk_bits@ == sk@,
            evaluations == req.rows@.len() as int / (H_ROWS as int),
            req.rows@.len() as int % (H_ROWS as int) == 0,
            reqs == req.rows@.map_values(|r: RowRequest| r@),
            forall|j: int| 0 <= j < req.rows@.len() ==> row_well_formed(#[trigger] req.rows@[j]@),
            e <= evaluations,
            H_ROWS * evaluations == req.rows@.len(),
            needed_slots == req.rows@.len(),
            s0.tau() - s0.ctr() >= req.rows@.len(),
            ServerState::advanced(s0, *state, (H_ROWS * e) as nat),
            rows@.map_values(|r: RowResponse| r@) == blind_rows(s0, sk@, reqs).take(H_ROWS * e),
        decreases evaluations - e,
    {
        let ghost before = *state;
        proof {
            ServerState::lemma_advanced(s0, before, (H_ROWS * e) as nat);
            before.lemma_wf();
        }
        let first_slot = match state.next_slots(H_ROWS) {
            Some(first) => first,
            None => {
                proof {
                    assert(false);
                }
                0
            },
        };
        proof {
            ServerState::lemma_advanced(before, *state, H_ROWS as nat);
            ServerState::lemma_advanced_trans(s0, before, *state, (H_ROWS * e) as nat, H_ROWS as nat);
            ServerState::lemma_advanced(s0, *state, (H_ROWS * (e + 1)) as nat);
        }
        let ghost rows_before = rows@.map_values(|r: RowResponse| r@);
        blind_eval_evaluation(state, sk_bits, &req.rows, H_ROWS * e, first_slot, &mut rows);
        proof {
            let ghost new_rows = Seq::new(
                H_ROWS as nat,
                |kk: int| blind_row(*state, sk_bits@, req.rows@[H_ROWS * e + kk]@, first_slot as nat, kk),
            );
            let ghost now_rows = rows@.map_values(|r: RowResponse| r@);
            assert(now_rows == rows_before + new_rows);
            assert forall|j: int| 0 <= j < H_ROWS * (e + 1) implies #[trigger] now_rows[j]
                == blind_rows(s0, sk@, reqs)[j] by {
                if j >= H_ROWS * e {
                    let kk = j - H_ROWS * e;
                    assert((H_ROWS * e + kk) / (H_ROWS as int) == e);
                    assert((H_ROWS * e + kk) % (H_ROWS as int) == kk);
                    assert(reqs[j] == req.rows@[j]@);
                    lemma_same_material_blind(*state, s0, sk@, reqs[j], first_slot as nat, kk);
                    assert(new_rows[kk] == blind_rows(s0, sk@, reqs)[j]);
                }
            }
            assert(now_rows =~= blind_rows(s0, sk@, reqs).take(H_ROWS * (e + 1)));
        }
        e = e + 1;
    }
    proof {
        assert(blind_rows(s0, sk@, reqs).take(H_ROWS * e) =~= blind_rows(s0, sk@, reqs));
        ServerState::lemma_advanced(s0, *state, (H_ROWS * e) as nat);
        assert(H_ROWS * e == req.rows@.len());
    }
    let mut uid = [0u8; 16];
    copy_uid(&mut uid, state.uid());
    Ok(ResponseMessage { uid, rows })
}

/// Two server states with the same material answer a row the same.
proof fn lemma_same_material_blind(s1: ServerState, s2: ServerState, sk: Seq<u8>, row: (Seq<Zq>, int), first: nat, k: int)
    requires
        forall|i: int| #[trigger] s1.seed(i) == s2.seed(i),
        forall|j: int| #[trigger] s1.pads(j) == s2.pads(j),
    ensures
        blind_row(s1, sk, row, first, k) == blind_row(s2, sk, row, first, k),
{
    lemma_same_material_blind_sum(s1, s2, sk, row.0, first, k, N as int);
}

proof fn lemma_same_material_blind_sum(s1: ServerState, s2: ServerState, sk: Seq<u8>, e: Seq<Zq>, first: nat, k: int, n: int)
    requires
        forall|i: int| #[trigger] s1.seed(i) == s2.seed(i),
    ensures
        blind_sum(s1, sk, e, first, k, n) == blind_sum(s2, sk, e, first, k, n),
    decreases n,
{
    if n > 0 {
        lemma_same_material_blind_sum(s1, s2, sk, e, first, k, n - 1);
        assert(s_mask(s1, n - 1, first, k) == s_mask(s2, n - 1, first, k));
    }
}


// ---------------------------------------------------------------------------
// Finalize.
// ---------------------------------------------------------------------------

/// One base run of Figure 4's Finalize: read the entry at `r_sigma mod
/// DELTA`, take off the pad, then take off `r_sigma div DELTA`, all mod p.
pub open spec fn finalize_row_spec(fin: (int, int, int), resp: (Seq<Zp>, int)) -> Zp {
    ((((resp.0[fin.1 % (DELTA as int)] - fin.2) % 256) - fin.1 / (DELTA as int)) % 256) as Zp
}

/// The outputs of a batch: evaluation `e` from rows `16e .. 16e + 16`.
pub open spec fn finalize_outputs(fins: Seq<(int, int, int)>, resps: Seq<(Seq<Zp>, int)>) -> Seq<Seq<Zp>> {
    Seq::new(
        (fins.len() as int / (H_ROWS as int)) as nat,
        |e: int|
            Seq::new(
                H_ROWS as nat,
                |k: int| finalize_row_spec(fins[H_ROWS * e + k], resps[H_ROWS * e + k]),
            ),
    )
}

/// One base run of Figure 4's Finalize, for a single response row.
fn finalize_row(fin: &RowFinalizeState, resp: &RowResponse) -> (r: Zp)
    ensures
        r == finalize_row_spec(fin@, resp@),
{
    let r_sigma_mod_delta = reduce_delta(fin.r_sigma) as usize;
    let r = fin.r_prime;
    let y = sub_p(resp.y[r_sigma_mod_delta], r);
    let r_sigma_div_delta = (fin.r_sigma - r_sigma_mod_delta as Zq) / DELTA_ZQ;
    let d = r_sigma_div_delta as Zp;
    proof {
        let q = fin.r_sigma as int / 16;
        assert(r_sigma_div_delta == q);
        assert(r_sigma_div_delta as u8 == r_sigma_div_delta % 256) by (bit_vector);
        assert(d == q % 256);
        vstd::arithmetic::div_mod::lemma_sub_mod_noop(y as int, q, 256);
        assert((y - d) % 256 == (y - q) % 256);
    }
    sub_p(y, d)
}

/// Figure 4's Finalize, for a batch.
///
/// Fails if the response is for another session, has another number of
/// rows, or a row is for another slot than the request row it answers (the
/// first such row is named). `state` holds whole evaluations.
pub fn finalize_batch(state: &FinalizeState, resp: &ResponseMessage) -> (r: Result<
    Vec<PrfOutput>,
    FinalizeError,
>)
    requires
        resp.uid@ == state.uid@ && resp.rows@.len() == state.rows@.len() ==> state.rows@.len() as int
            % (H_ROWS as int) == 0,
    ensures
        match r {
            Err(FinalizeError::SessionMismatch { want, got }) => resp.uid@ != state.uid@ && want
                == state.uid && got == resp.uid,
            Err(FinalizeError::Malformed(reason)) => resp.uid@ == state.uid@ && resp.rows@.len()
                != state.rows@.len() && reason == "wrong number of rows",
            Err(FinalizeError::CounterMismatch { row, want, got }) => {
                &&& resp.uid@ == state.uid@
                &&& resp.rows@.len() == state.rows@.len()
                &&& row < state.rows@.len()
                &&& want == state.rows@[row as int].ctr
                &&& got == resp.rows@[row as int].ctr
                &&& want != got
                &&& forall|j: int| 0 <= j < row ==> state.rows@[j].ctr == resp.rows@[j].ctr
            },
            Err(FinalizeError::NotSingle { .. }) => false,
            Ok(outputs) => {
                &&& resp.uid@ == state.uid@
                &&& resp.rows@.len() == state.rows@.len()
                &&& forall|j: int| 0 <= j < state.rows@.len() ==> state.rows@[j].ctr
                    == resp.rows@[j].ctr
                &&& outputs@.map_values(|o: PrfOutput| o@) == finalize_outputs(
                    state.rows@.map_values(|f: RowFinalizeState| f@),
                    resp.rows@.map_values(|x: RowResponse| x@),
                )
            },
        },
{
    if !uid_eq(&resp.uid, &state.uid) {
        return Err(FinalizeError::SessionMismatch { want: state.uid, got: resp.uid });
    }
    if resp.rows.len() != state.rows.len() {
        return Err(FinalizeError::Malformed("wrong number of rows"));
    }
    let ghost fins = state.rows@.map_values(|f: RowFinalizeState| f@);
    let ghost resps = resp.rows@.map_values(|x: RowResponse| x@);
    let ghost target = finalize_outputs(fins, resps);
    let evaluations = state.evaluations();
    let n_rows = state.rows.len();
    let mut outputs: Vec<PrfOutput> = Vec::new();
    let mut e: usize = 0;
    while e < evaluations
        invariant
            evaluations == state.rows@.len() as int / (H_ROWS as int),
            state.rows@.len() as int % (H_ROWS as int) == 0,
            resp.rows@.len() == state.rows@.len(),
            n_rows == state.rows@.len(),
            resp.uid@ == state.uid@,
            fins == state.rows@.map_values(|f: RowFinalizeState| f@),
            resps == resp.rows@.map_values(|x: RowResponse| x@),
            target == finalize_outputs(fins, resps),
            e <= evaluations,
            forall|j: int| 0 <= j < H_ROWS * e ==> state.rows@[j].ctr == resp.rows@[j].ctr,
            outputs@.len() == e,
            forall|ee: int| 0 <= ee < e ==> (#[trigger] outputs@[ee])@ == target[ee],
        decreases evaluations - e,
    {
        let mut out = [0u8; 16];
        let mut k: usize = 0;
        while k < H_ROWS
            invariant
                e < evaluations,
                evaluations == state.rows@.len() as int / (H_ROWS as int),
                state.rows@.len() as int % (H_ROWS as int) == 0,
                resp.rows@.len() == state.rows@.len(),
                n_rows == state.rows@.len(),
                resp.uid@ == state.uid@,
                fins == state.rows@.map_values(|f: RowFinalizeState| f@),
                resps == resp.rows@.map_values(|x: RowResponse| x@),
                k <= H_ROWS,
                out@.len() == H_ROWS,
                forall|j: int| 0 <= j < H_ROWS * e + k ==> state.rows@[j].ctr == resp.rows@[j].ctr,
                forall|kk: int| 0 <= kk < k ==> #[trigger] out@[kk] == finalize_row_spec(
                    fins[H_ROWS * e + kk],
                    resps[H_ROWS * e + kk],
                ),
            decreases H_ROWS - k,
        {
            proof {
                vstd::arithmetic::div_mod::lemma_fundamental_div_mod(state.rows@.len() as int, 16);
                assert(H_ROWS * e + k < state.rows@.len());
            }
            let j = H_ROWS * e + k;
            let fin = &state.rows[j];
            let row = &resp.rows[j];
            if row.ctr != fin.ctr {
                return Err(FinalizeError::CounterMismatch { row: j, want: fin.ctr, got: row.ctr });
            }
            let v = finalize_row(fin, row);
            out[k] = v;
            k = k + 1;
        }
        let o = PrfOutput::from(out);
        assert(o@ =~= target[e as int]);
        outputs.push(o);
        e = e + 1;
    }
    assert(outputs@.map_values(|o: PrfOutput| o@) =~= target);
    Ok(outputs)
}

/// Unblind a response into the PRF output - the one-input case of
/// `finalize_batch`. Fails with `NotSingle` if `state` is not for exactly
/// one evaluation.
pub fn finalize(state: &FinalizeState, resp: &ResponseMessage) -> (r: Result<PrfOutput, FinalizeError>)
    requires
        state.rows@.len() as int / (H_ROWS as int) == 1 && resp.uid@ == state.uid@
            && resp.rows@.len() == state.rows@.len() ==> state.rows@.len() == H_ROWS,
    ensures
        match r {
            Err(FinalizeError::NotSingle { len }) => len == state.rows@.len() as int / (H_ROWS as int)
                && len != 1,
            Err(FinalizeError::SessionMismatch { want, got }) => state.rows@.len() as int / (
            H_ROWS as int) == 1 && resp.uid@ != state.uid@ && want == state.uid && got == resp.uid,
            Err(FinalizeError::Malformed(reason)) => state.rows@.len() as int / (H_ROWS as int) == 1
                && resp.uid@ == state.uid@ && resp.rows@.len() != state.rows@.len() && reason
                == "wrong number of rows",
            Err(FinalizeError::CounterMismatch { row, want, got }) => {
                &&& state.rows@.len() == H_ROWS
                &&& resp.uid@ == state.uid@
                &&& resp.rows@.len() == state.rows@.len()
                &&& row < state.rows@.len()
                &&& want == state.rows@[row as int].ctr
                &&& got == resp.rows@[row as int].ctr
                &&& want != got
                &&& forall|j: int| 0 <= j < row ==> state.rows@[j].ctr == resp.rows@[j].ctr
            },
            Ok(output) => {
                &&& state.rows@.len() == H_ROWS
                &&& resp.uid@ == state.uid@
                &&& resp.rows@.len() == state.rows@.len()
                &&& forall|j: int| 0 <= j < state.rows@.len() ==> state.rows@[j].ctr
                    == resp.rows@[j].ctr
                &&& output@ == finalize_outputs(
                    state.rows@.map_values(|f: RowFinalizeState| f@),
                    resp.rows@.map_values(|x: RowResponse| x@),
                )[0]
            },
        },
{
    let evaluations = state.evaluations();
    if evaluations != 1 {
        return Err(FinalizeError::NotSingle { len: evaluations });
    }
    match finalize_batch(state, resp) {
        Err(err) => Err(err),
        Ok(outputs) => {
            assert(outputs@.map_values(|o: PrfOutput| o@).len() == outputs@.len());
            assert(outputs@.len() == 1);
            assert(outputs@[0]@ == outputs@.map_values(|o: PrfOutput| o@)[0]);
            Ok(outputs[0])
        },
    }
}


// ---------------------------------------------------------------------------
// Correctness: Request, BlindEval and Finalize compute the PRF.
// ---------------------------------------------------------------------------

/// A client and a server state as one run of PreProc (Figure 3) leaves them
/// for the key `sk`: the same session and slot count; for each coordinate,
/// the server holds the seed of its choice `b_i` and the client's masked bit
/// is `b_hat_i = b_i xor sk_i`; for each slot, the client's pad is the
/// server's pad at the client's choice.
pub open spec fn matched(c: ClientState, s: ServerState, sk: Seq<u8>) -> bool {
    &&& is_key_bits(sk)
    &&& c.uid_view() == s.uid_view()
    &&& c.tau() == s.tau()
    &&& forall|i: int| 0 <= i < N ==> #[trigger] c.bhat(i) == (if sk[i] == 0 {
        s.b(i)
    } else {
        1 - s.b(i)
    })
    &&& forall|i: int| 0 <= i < N ==> #[trigger] s.seed(i) == c.seed(i, s.b(i))
    &&& forall|j: int| 0 <= j < c.tau() ==> #[trigger] c.r_prime(j) == s.pads(j)[c.b_prime(j)]
}

/// Each term the server adds is the client's blinding mask plus `a_i * sk_i`, mod q.
proof fn lemma_blind_term(c: ClientState, s: ServerState, sk: Seq<u8>, a: Seq<Zq>, first: nat, k: int, i: int)
    requires
        c.wf(),
        s.wf(),
        matched(c, s, sk),
        is_zq_row(a),
        0 <= i < N,
        0 <= k < H_ROWS,
    ensures
        blind_term(s, sk, request_e(c, a, first, k), i, first, k) % (Q as int) == (a[i] * sk[i]
            + c_mask(c, i, first, k)) % (Q as int),
{
    s.lemma_wf();
    c.lemma_wf();
    let e = request_e(c, a, first, k);
    let cm = c_mask(c, i, first, k);
    let com = c_other_mask(c, i, first, k);
    assert(masks(c.seed(i, c.bhat(i)), first)[k] < Q);
    assert(masks(c.seed(i, 1 - c.bhat(i)), first)[k] < Q);
    if sk[i] == 0 {
        assert(a[i] * sk[i] == 0) by (nonlinear_arith)
            requires
                sk[i] == 0,
        ;
        assert(s_mask(s, i, first, k) == cm);
    } else {
        assert(sk[i] == 1);
        assert(a[i] * sk[i] == a[i]) by (nonlinear_arith)
            requires
                sk[i] == 1,
        ;
        assert(1 - c.bhat(i) == s.b(i));
        assert(s_mask(s, i, first, k) == com);
        assert(e[i] == (a[i] + cm + com) % (Q as int));
        vstd::arithmetic::div_mod::lemma_sub_mod_noop(a[i] + cm + com, com, Q as int);
        assert(com % (Q as int) == com);
    }
}

/// Summed over the coordinates, the server's terms are the client's mask sum
/// plus the inner product of the hash row with the key, mod q.
proof fn lemma_blind_sum(c: ClientState, s: ServerState, sk: Seq<u8>, a: Seq<Zq>, first: nat, k: int, n: int)
    requires
        c.wf(),
        s.wf(),
        matched(c, s, sk),
        is_zq_row(a),
        0 <= n <= N,
        0 <= k < H_ROWS,
    ensures
        blind_sum(s, sk, request_e(c, a, first, k), first, k, n) % (Q as int) == (crate::prf::inner(
            a,
            sk,
            n,
        ) + c_mask_sum(c, first, k, n)) % (Q as int),
    decreases n,
{
    if n > 0 {
        lemma_blind_sum(c, s, sk, a, first, k, n - 1);
        lemma_blind_term(c, s, sk, a, first, k, n - 1);
        let b = blind_sum(s, sk, request_e(c, a, first, k), first, k, n - 1);
        let t = blind_term(s, sk, request_e(c, a, first, k), n - 1, first, k);
        let x = crate::prf::inner(a, sk, n - 1) + c_mask_sum(c, first, k, n - 1);
        let y = a[n - 1] * sk[n - 1] + c_mask(c, n - 1, first, k);
        vstd::arithmetic::div_mod::lemma_add_mod_noop(b, t, Q as int);
        vstd::arithmetic::div_mod::lemma_add_mod_noop(x, y, Q as int);
    }
}

/// Taking `r_sigma mod DELTA` off the server's sum leaves the inner product
/// shifted by whole multiples of `DELTA`.
proof fn lemma_unblind_sum(inner: int, big_r: int)
    requires
        0 <= inner,
        0 <= big_r,
    ensures
        (((inner + big_r) % 4096) - (big_r % 4096) % 16) % 4096 == ((inner % 4096) + 16 * ((
            big_r % 4096) / 16)) % 4096,
{
    let qq = 4096int;
    let r_sigma = big_r % qq;
    let jstar = r_sigma % 16;
    let kq = r_sigma / 16;
    assert(r_sigma == 16 * kq + jstar);
    vstd::arithmetic::div_mod::lemma_sub_mod_noop(inner + big_r, jstar, qq);
    assert(jstar % qq == jstar);
    vstd::arithmetic::div_mod::lemma_add_mod_noop(inner, big_r - jstar, qq);
    vstd::arithmetic::div_mod::lemma_sub_mod_noop(big_r, jstar, qq);
    vstd::arithmetic::div_mod::lemma_mod_twice(big_r, qq);
    assert((big_r - jstar) % qq == (r_sigma - jstar) % qq);
    assert(r_sigma - jstar == 16 * kq);
    assert((16 * kq) % qq == 16 * kq);
    vstd::arithmetic::div_mod::lemma_add_mod_noop(inner, 16 * kq, qq);
    vstd::arithmetic::div_mod::lemma_mod_twice((inner + big_r) - jstar, qq);
}

/// The entry the client reads carries the pad at its own choice.
proof fn lemma_unblind_index(jstar: int, b_prime: int)
    requires
        0 <= jstar < 16,
        0 <= b_prime < 16,
    ensures
        (jstar - (jstar - b_prime) % 16) % 16 == b_prime,
{
    vstd::arithmetic::div_mod::lemma_sub_mod_noop(jstar, jstar - b_prime, 16);
    assert(jstar % 16 == jstar);
    assert(b_prime % 16 == b_prime);
}

/// Taking off the pad and then the shift gives back the rounded value.
proof fn lemma_unblind_entry(base: int, kq: int, rp: int)
    requires
        0 <= base < 256,
        0 <= rp < 256,
    ensures
        (((((base + kq) % 256 + rp) % 256 - rp) % 256) - kq) % 256 == base,
{
    let rnd = (base + kq) % 256;
    vstd::arithmetic::div_mod::lemma_sub_mod_noop(rnd + rp, rp, 256);
    assert(rp % 256 == rp);
    assert(rnd % 256 == rnd);
    vstd::arithmetic::div_mod::lemma_sub_mod_noop(base + kq, kq, 256);
    vstd::arithmetic::div_mod::lemma_mod_twice(base + kq, 256);
    vstd::arithmetic::div_mod::lemma_sub_mod_noop(rnd, kq, 256);
    assert(base % 256 == base);
}

/// One base run: Finalize on BlindEval's answer to Request's row gives the
/// PRF's element for that row.
proof fn lemma_row_correct(c: ClientState, s: ServerState, sk: Seq<u8>, a: Seq<Zq>, first: nat, k: int)
    requires
        c.wf(),
        s.wf(),
        matched(c, s, sk),
        is_zq_row(a),
        0 <= k < H_ROWS,
        first + k < c.tau(),
    ensures
        finalize_row_spec(
            request_fin_row(c, first, k),
            blind_row(s, sk, request_row(c, a, first, k), first, k),
        ) == crate::prf::prf_row(a, sk) as Zp,
{
    c.lemma_wf();
    s.lemma_wf();
    let req = request_row(c, a, first, k);
    let fin = request_fin_row(c, first, k);
    let resp = blind_row(s, sk, req, first, k);
    let inner = crate::prf::inner(a, sk, N as int);
    let big_r = c_mask_sum(c, first, k, N as int);
    let slot = first + k;
    lemma_blind_sum(c, s, sk, a, first, k, N as int);
    lemma_c_mask_sum_bounds(c, first, k, N as int);
    crate::prf::lemma_inner_bounds(a, sk, N as int);
    let a_sig = a_sigma(s, sk, req.0, first, k);
    let r_sigma = fin.1;
    let jstar = r_sigma % 16;
    let kq = r_sigma / 16;
    let b_prime = c.b_prime(slot);
    let pads = s.pads(slot);
    let rp = fin.2;
    assert(a_sig == (inner + big_r) % 4096);
    assert(r_sigma == big_r % 4096);
    assert(req.1 == (jstar - b_prime) % 16);
    lemma_unblind_index(jstar, b_prime);
    assert(crate::eval::pad_index(jstar, req.1) == b_prime);
    assert(rp == pads[b_prime]);
    lemma_unblind_sum(inner, big_r);
    assert((a_sig - jstar) % 4096 == ((inner % 4096) + 16 * kq) % 4096);
    crate::round::lemma_round_shift(inner % 4096, kq);
    let base = crate::round::round_qp(inner % 4096);
    let rnd = crate::eval::rounded_spec(a_sig, jstar);
    assert(rnd == (base + kq) % 256);
    assert(resp.0[jstar] == ((rnd + rp) % 256) as Zp);
    lemma_unblind_entry(base, kq, rp);
}

/// The OPRF computes the PRF. A client and a server state matched by
/// preprocessing for `sk`, with the same slots spent: the request the client
/// builds for `inputs` under `tag` is one the server accepts, each response
/// row answers the slot of its request row, and finalizing gives
/// `F_sk(tag, x)` for every input `x`, in order.
pub proof fn lemma_oprf_correct(
    c: ClientState,
    s: ServerState,
    sk: Seq<u8>,
    tag: Seq<u8>,
    inputs: Seq<Seq<u8>>,
)
    requires
        c.wf(),
        s.wf(),
        matched(c, s, sk),
        c.ctr() == s.ctr(),
        tag.len() <= MAX_TAG_LEN,
        1 <= inputs.len() <= MAX_BATCH_EVALUATIONS,
        c.tau() - c.ctr() >= H_ROWS * inputs.len(),
    ensures
        !request_malformed(tag, request_rows(c, tag, inputs)),
        forall|j: int| 0 <= j < H_ROWS * inputs.len() ==> (#[trigger] request_fin_rows(c, inputs.len())[j]).0
            == blind_rows(s, sk, request_rows(c, tag, inputs))[j].1,
        finalize_outputs(
            request_fin_rows(c, inputs.len()),
            blind_rows(s, sk, request_rows(c, tag, inputs)),
        ) == Seq::new(inputs.len(), |e: int| prf(sk, tag, inputs[e])),
{
    let n = inputs.len();
    let rows = request_rows(c, tag, inputs);
    let fins = request_fin_rows(c, n);
    let resps = blind_rows(s, sk, rows);
    assert forall|j: int| 0 <= j < rows.len() implies row_well_formed(#[trigger] rows[j]) by {
        let e = j / (H_ROWS as int);
        let k = j % (H_ROWS as int);
        let a = ro_matrix(tag, inputs[e])[k];
        let first = (c.ctr() + H_ROWS * e) as nat;
        assert(rows[j] == request_row(c, a, first, k));
        assert(request_e(c, a, first, k).len() == N);
    }
    assert(rows.len() as int / (H_ROWS as int) == n);
    assert forall|j: int| 0 <= j < H_ROWS * n implies (#[trigger] fins[j]).0 == resps[j].1 by {
    }
    let target = Seq::new(n, |e: int| prf(sk, tag, inputs[e]));
    let outs = finalize_outputs(fins, resps);
    assert(fins.len() as int / (H_ROWS as int) == n);
    assert forall|e: int| 0 <= e < n implies #[trigger] outs[e] == target[e] by {
        let m = ro_matrix(tag, inputs[e]);
        crate::hash::lemma_ro_matrix_reduced(tag, inputs[e]);
        let first = (c.ctr() + H_ROWS * e) as nat;
        assert forall|k: int| 0 <= k < H_ROWS implies #[trigger] outs[e][k] == target[e][k] by {
            let j = H_ROWS * e + k;
            assert(j / (H_ROWS as int) == e);
            assert(j % (H_ROWS as int) == k);
            assert(is_zq_row(m[k]));
            assert(rows[j] == request_row(c, m[k], first, k));
            assert(fins[j] == request_fin_row(c, first, k));
            assert(resps[j] == blind_row(s, sk, rows[j], first, k));
            lemma_row_correct(c, s, sk, m[k], first, k);
        }
        assert(outs[e] =~= target[e]);
    }
    assert(outs =~= target);
}

/// Spending the same number of slots on both sides keeps a client and a
/// server state matched, with their counters still in step; so the
/// correctness of the OPRF carries from one request to the next.
pub proof fn lemma_matched_after_spending(
    c: ClientState,
    s: ServerState,
    sk: Seq<u8>,
    c2: ClientState,
    s2: ServerState,
    count: nat,
)
    requires
        matched(c, s, sk),
        c.ctr() == s.ctr(),
        ClientState::advanced(c, c2, count),
        ServerState::advanced(s, s2, count),
    ensures
        matched(c2, s2, sk),
        c2.ctr() == s2.ctr(),
{
    ClientState::lemma_advanced(c, c2, count);
    ServerState::lemma_advanced(s, s2, count);
    assert forall|i: int| 0 <= i < N implies #[trigger] c2.bhat(i) == (if sk[i] == 0 {
        s2.b(i)
    } else {
        1 - s2.b(i)
    }) by {
        assert(c2.bhat(i) == c.bhat(i));
        assert(s2.b(i) == s.b(i));
    }
    assert forall|i: int| 0 <= i < N implies #[trigger] s2.seed(i) == c2.seed(i, s2.b(i)) by {
        assert(s2.seed(i) == s.seed(i));
        assert(s2.b(i) == s.b(i));
        assert(c2.seed(i, s.b(i)) == c.seed(i, s.b(i)));
    }
    assert forall|j: int| 0 <= j < c2.tau() implies #[trigger] c2.r_prime(j) == s2.pads(j)[c2.b_prime(
        j,
    )] by {
        assert(c2.r_prime(j) == c.r_prime(j));
        assert(c2.b_prime(j) == c.b_prime(j));
        assert(s2.pads(j) == s.pads(j));
    }
}

/// Preprocessing leaves matched states when its OTs are correct. Given the
/// states `client_state` and `server_state` build from what the OTs handed
/// each side, and the masked key bits the server sent, the states are
/// matched for `sk` if each binary rOT gave the server the client's seed at
/// the server's choice, and each DELTA-choose-1 rOT gave the client the
/// server's block at the client's choice.
pub proof fn lemma_preprocessing_matched(
    c: ClientState,
    s: ServerState,
    sk: Seq<u8>,
    client_pairs: Seq<[Block; 2]>,
    client_blocks: Seq<Block>,
    client_choices: Seq<Zdelta>,
    bhat: Seq<u8>,
    server_seeds: Seq<Block>,
    server_choices: Seq<u8>,
    sender_blocks: Seq<[Block; DELTA]>,
)
    requires
        c.wf(),
        s.wf(),
        is_key_bits(sk),
        c.uid_view() == s.uid_view(),
        c.tau() == client_choices.len(),
        client_blocks.len() == client_choices.len(),
        s.tau() == sender_blocks.len(),
        sender_blocks.len() == client_choices.len(),
        forall|i: int, side: int| 0 <= i < N && 0 <= side < 2 ==> #[trigger] c.seed(i, side)
            == client_pairs[i][side]@,
        forall|i: int| 0 <= i < N ==> #[trigger] c.bhat(i) == bhat[i],
        forall|j: int| 0 <= j < c.tau() ==> #[trigger] c.b_prime(j) == client_choices[j],
        forall|j: int| 0 <= j < c.tau() ==> #[trigger] c.r_prime(j) == client_blocks[j]@[0],
        forall|i: int| 0 <= i < N ==> #[trigger] s.seed(i) == server_seeds[i]@,
        forall|i: int| 0 <= i < N ==> #[trigger] s.b(i) == server_choices[i],
        forall|j: int, d: int| #![trigger s.pads(j)[d]]
            0 <= j < s.tau() && 0 <= d < DELTA ==> s.pads(j)[d] == sender_blocks[j][d]@[0],
        forall|i: int| 0 <= i < N ==> #[trigger] bhat[i] == server_choices[i] ^ sk[i],
        forall|i: int| 0 <= i < N ==> #[trigger] server_seeds[i] == client_pairs[i][server_choices[i] as int],
        forall|j: int| 0 <= j < client_choices.len() ==> #[trigger] client_blocks[j]
            == sender_blocks[j][client_choices[j] as int],
    ensures
        matched(c, s, sk),
{
    s.lemma_wf();
    c.lemma_wf();
    assert forall|i: int| 0 <= i < N implies #[trigger] c.bhat(i) == (if sk[i] == 0 {
        s.b(i)
    } else {
        1 - s.b(i)
    }) by {
        let b = server_choices[i];
        let k = sk[i];
        assert(s.b(i) == b);
        assert(0 <= b <= 1);
        assert(k <= 1);
        assert((b ^ k) as int == if k == 0 { b as int } else { 1 - b }) by (bit_vector)
            requires
                b <= 1,
                k <= 1,
        ;
    }
    assert forall|i: int| 0 <= i < N implies #[trigger] s.seed(i) == c.seed(i, s.b(i)) by {
        assert(0 <= s.b(i) <= 1);
    }
    assert forall|j: int| 0 <= j < c.tau() implies #[trigger] c.r_prime(j) == s.pads(j)[c.b_prime(j)] by {
        let d = c.b_prime(j);
        assert(0 <= d < DELTA);
        assert(s.pads(j)[d] == sender_blocks[j][d]@[0]);
    }
}

} // verus!
