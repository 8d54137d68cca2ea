//! The codeword entity: multi-coset encoding of a message and the
//! round-by-round fold that halves it while binding in a challenge.

use vstd::prelude::*;
use vstd::arithmetic::power2::pow2;
use vstd::arithmetic::power2::lemma_pow2_pos;
use vstd::arithmetic::power2::lemma_pow2_strictly_increases;
use vstd::arithmetic::power2::lemma_pow2_unfold;
use vstd::arithmetic::power2::lemma2_to64;
use vstd::arithmetic::div_mod::lemma_fundamental_div_mod;
use vstd::arithmetic::div_mod::lemma_fundamental_div_mod_converse_div;
use vstd::arithmetic::div_mod::lemma_fundamental_div_mod_converse_mod;
use crate::field::F128;
use crate::field::F64;
use crate::field::mul_spec;
use crate::field::pack_spec;
use crate::field::pack;
use crate::field::seq_vals;
use crate::field::lemma_mul_zero;
use crate::field::lemma_mul_one;
use crate::ntt::Ntt;
use crate::ntt::twiddle_spec;
use crate::ntt::transform_spec;
use crate::ntt::lemma_rounds_from_len;
use crate::ntt::rounds_from;
use crate::ntt::butterfly_round;
use crate::ntt::round_out;
use crate::ntt::is_power_of_two;
use crate::ntt::lg;

verus! {

/// Number of cosets the message is evaluated on: the redundancy of the code.
pub const RATE: usize = 4;

/// Base-2 logarithm of `RATE`.
pub const LOG_RATE: usize = 2;

/// How an encode or fold call can fail. Every failure is reported before any
/// output is handed out; there is no partial codeword.
#[derive(Clone, Copy, Debug, PartialEq, Eq, Structural)]
pub enum CodeError {
    /// The message length is not a multiple of the extension degree.
    Repacking,
    /// A buffer length is not a power of two, so the transform cannot
    /// interpret it as a coefficient vector.
    PowerOfTwoLengthRequired,
    /// The evaluation domain cannot address every requested point.
    DomainTooSmall,
    /// The requested evaluation domain exceeds the supported maximum.
    DomainTooLarge,
    /// A codeword of odd length cannot be folded.
    LengthMismatch,
    /// The fold round exceeds the twiddle layers the domain supports.
    RoundOutOfRange,
}

/// The Reed-Solomon encoding of a message: `RATE` evaluations of the same
/// coefficient vector, one per coset, in coset-major order.
#[derive(Clone, Debug)]
pub struct Code {
    pub encoding: Vec<F128>,
}

/// One fold step at output index `idx` of fold round `round`: undo the
/// level-`round` butterfly on the adjacent pair (v0, v1) using the twiddle of
/// that position, then take the affine combination of the two recovered
/// values at the challenge.
pub open spec fn fold_spec(ch: u128, round: nat, idx: nat, v0: u128, v1: u128) -> u128 {
    let t = twiddle_spec(round, idx);
    let x1 = v1 ^ v0;
    let x0 = v0 ^ mul_spec(x1, t);
    x0 ^ mul_spec(ch, x0 ^ x1)
}

/// The whole folded codeword: output `i` draws from input positions `2i` and
/// `2i + 1` and nothing else.
pub open spec fn fold_seq_spec(ch: u128, round: nat, c: Seq<u128>) -> Seq<u128> {
    Seq::new(c.len() / 2, |i: int| fold_spec(ch, round, i as nat, c[2 * i], c[2 * i + 1]))
}

/// The full codeword of a message: the concatenation, in coset-major order,
/// of the transforms of the message on cosets `0 .. RATE`.
pub open spec fn encode_spec(log_n: nat, msg: Seq<u128>) -> Seq<u128> {
    Seq::new(
        (RATE as nat) * msg.len(),
        |gi: int|
            transform_spec((gi / (msg.len() as int)) as nat, log_n, msg)[gi % (msg.len() as int)],
    )
}

/// Groups of two consecutive narrow elements lifted into wide elements.
pub open spec fn repack_spec(m: Seq<u64>) -> Seq<u128> {
    Seq::new(m.len() / 2, |i: int| pack_spec(m[2 * i], m[2 * i + 1]))
}

/// A message of this length can be encoded on a domain of size 2^`log_d`:
/// the length is a power of two and the domain has room for `RATE` cosets.
pub open spec fn encodable(len: nat, log_d: nat) -> bool {
    is_power_of_two(len) && lg(len) + LOG_RATE <= log_d
}

/// A codeword of this length can be folded at this round: the length is
/// even and every output index has a twiddle at that layer.
pub open spec fn foldable(len: nat, round: nat, log_d: nat) -> bool {
    len % 2 == 0 && round < log_d && len / 2 <= pow2((log_d - 1 - round) as nat)
}

/// The fold of a pair: recover the two butterfly inputs, then bind the
/// challenge. `twiddle` is looked up at layer `round`, index `idx`, so the
/// fold undoes exactly the butterfly the encoder applied at that position.
pub fn fold(r: F128, round: usize, idx: usize, val0: F128, val1: F128, ntt: &Ntt) -> (out: F128)
    requires
        ntt.wf(),
        round < ntt.log_d(),
        idx < pow2((ntt.log_d() - 1 - round) as nat),
    ensures
        out.v == fold_spec(r.v, round as nat, idx as nat, val0.v, val1.v),
{
    let twiddle = ntt.subspace_eval(round, idx);
    let x1 = val1.add(val0);
    let x0 = val0.add(x1.mul(twiddle));
    x0.add(r.mul(x0.add(x1)))
}

impl Code {
    /// Encode a wide-field message: evaluate its coefficient vector on each
    /// of the `RATE` cosets in increasing order and concatenate the results.
    /// Fails when the message length is not a power of two, or the domain
    /// cannot address index `RATE * len - 1`; no partial codeword escapes.
    #[verifier::loop_isolation(false)]
    pub fn new(message: &Vec<F128>, ntt: &Ntt) -> (res: Result<Code, CodeError>)
        requires
            ntt.wf(),
        ensures
            res is Ok <==> encodable(message@.len(), ntt.log_d()),
            res is Ok ==> res->Ok_0.encoding@.len() == (RATE as nat) * message@.len() && seq_vals(
                res->Ok_0.encoding@,
            ) == encode_spec(lg(message@.len()), seq_vals(message@)),
            res is Err ==> res->Err_0 == (if !is_power_of_two(message@.len()) {
                CodeError::PowerOfTwoLengthRequired
            } else {
                CodeError::DomainTooSmall
            }),
    {
        let ghost log_n = lg(message@.len());
        let ghost msg = seq_vals(message@);
        let mut out: Vec<F128> = Vec::new();
        let mut c: usize = 0;
        while c < RATE
            invariant
                c <= RATE,
                out@.len() == c * message@.len(),
                c > 0 ==> is_power_of_two(message@.len()) && log_n <= ntt.log_d() && ((c - 1) as nat)
                    < pow2((ntt.log_d() - log_n) as nat),
                forall|gi: int|
                    0 <= gi < out@.len() ==> seq_vals(out@)[gi] == encode_spec(log_n, msg)[gi],
            decreases RATE - c,
        {
            let mut temp: Vec<F128> = Vec::new();
            let mut k: usize = 0;
            while k < message.len()
                invariant
                    k <= message@.len(),
                    temp@.len() == k,
                    forall|q: int| 0 <= q < k ==> temp@[q] == message@[q],
                decreases message@.len() - k,
            {
                temp.push(message[k]);
                k = k + 1;
            }
            proof {
                assert(temp@ =~= message@);
            }
            match ntt.forward_transform(&mut temp, c as u32) {
                Ok(()) => {},
                Err(e) => {
                    proof {
                        if is_power_of_two(message@.len()) {
                            lemma2_to64();
                            if log_n + LOG_RATE <= ntt.log_d() {
                                if 2 < ntt.log_d() - log_n {
                                    lemma_pow2_strictly_increases(
                                        2,
                                        (ntt.log_d() - log_n) as nat,
                                    );
                                }
                            }
                        }
                    }
                    return Err(e);
                },
            }
            let ghost pre = out@;
            let ghost tvals = seq_vals(temp@);
            out.append(&mut temp);
            proof {
                let len = message@.len() as int;
                lemma_pow2_pos(log_n);
                assert((c + 1) * len == c * len + len && (c + 1) * len <= 4 * len)
                    by (nonlinear_arith)
                    requires
                        c < 4,
                        len >= 0,
                ;
                assert forall|gi: int| pre.len() <= gi < out@.len() implies seq_vals(out@)[gi]
                    == encode_spec(log_n, msg)[gi] by {
                    let k = gi - c * len;
                    lemma_fundamental_div_mod_converse_div(gi, len, c as int, k);
                    lemma_fundamental_div_mod_converse_mod(gi, len, c as int, k);
                    assert(seq_vals(out@)[gi] == out@[gi].v);
                    assert(seq_vals(out@)[gi] == tvals[k]);
                }
            }
            c = c + 1;
        }
        proof {
            assert(4nat <= pow2((ntt.log_d() - log_n) as nat));
            lemma2_to64();
            if ntt.log_d() - log_n < 2 {
                if ntt.log_d() - log_n == 1 {
                    lemma_pow2_strictly_increases(1, 2);
                }
                assert(pow2((ntt.log_d() - log_n) as nat) <= 2);
            }
            assert(seq_vals(out@) =~= encode_spec(log_n, msg));
        }
        Ok(Code { encoding: out })
    }

    /// Encode a narrow-field message: lift pairs of narrow elements into the
    /// wide field first, then encode the repacked message. Fails with a
    /// repacking error when the message length is not a multiple of the
    /// extension degree.
    #[verifier::loop_isolation(false)]
    pub fn new_ext(message: &Vec<F64>, ntt: &Ntt) -> (res: Result<Code, CodeError>)
        requires
            ntt.wf(),
        ensures
            res is Ok <==> message@.len() % 2 == 0 && encodable(message@.len() / 2, ntt.log_d()),
            res is Ok ==> res->Ok_0.encoding@.len() == (RATE as nat) * (message@.len() / 2)
                && seq_vals(res->Ok_0.encoding@) == encode_spec(
                lg(message@.len() / 2),
                repack_spec(message@.map_values(|x: F64| x.v)),
            ),
            res is Err ==> res->Err_0 == (if message@.len() % 2 != 0 {
                CodeError::Repacking
            } else if !is_power_of_two(message@.len() / 2) {
                CodeError::PowerOfTwoLengthRequired
            } else {
                CodeError::DomainTooSmall
            }),
    {
        if message.len() % 2 != 0 {
            return Err(CodeError::Repacking);
        }
        let half = message.len() / 2;
        proof {
            lemma_fundamental_div_mod(message@.len() as int, 2);
        }
        let mut repacked: Vec<F128> = Vec::new();
        let mut i: usize = 0;
        while i < half
            invariant
                i <= half,
                half == message@.len() / 2,
                message@.len() % 2 == 0,
                repacked@.len() == i,
                forall|q: int|
                    0 <= q < i ==> (#[trigger] repacked@[q]).v == pack_spec(
                        message@[2 * q].v,
                        message@[2 * q + 1].v,
                    ),
            decreases half - i,
        {
            proof {
                lemma_fundamental_div_mod(message@.len() as int, 2);
            }
            repacked.push(pack(message[2 * i], message[2 * i + 1]));
            i = i + 1;
        }
        proof {
            assert(seq_vals(repacked@) =~= repack_spec(message@.map_values(|x: F64| x.v)));
        }
        Self::new(&repacked, ntt)
    }

    /// Fold the codeword once at the given round: output `i` combines input
    /// positions `2i` and `2i + 1` under the round's twiddles and the
    /// challenge `r`, halving the length. Fails on an odd length, and when
    /// the round has no twiddle layer for every output position.
    #[verifier::loop_isolation(false)]
    pub fn fold_code(&self, r: F128, round: usize, ntt: &Ntt) -> (res: Result<Code, CodeError>)
        requires
            ntt.wf(),
        ensures
            res is Ok <==> foldable(self.encoding@.len(), round as nat, ntt.log_d()),
            res is Ok ==> res->Ok_0.encoding@.len() == self.encoding@.len() / 2 && seq_vals(
                res->Ok_0.encoding@,
            ) == fold_seq_spec(r.v, round as nat, seq_vals(self.encoding@)),
            res is Err ==> res->Err_0 == (if self.encoding@.len() % 2 != 0 {
                CodeError::LengthMismatch
            } else {
                CodeError::RoundOutOfRange
            }),
    {
        let n = self.encoding.len();
        if n % 2 != 0 {
            return Err(CodeError::LengthMismatch);
        }
        let half = n / 2;
        if round >= ntt.log_domain_size() {
            return Err(CodeError::RoundOutOfRange);
        }
        let cap = crate::ntt::pow2_exec(ntt.log_domain_size() - 1 - round);
        if half > cap {
            return Err(CodeError::RoundOutOfRange);
        }
        let mut out: Vec<F128> = Vec::new();
        let mut i: usize = 0;
        while i < half
            invariant
                i <= half,
                out@.len() == i,
                forall|q: int|
                    0 <= q < i ==> (#[trigger] out@[q]).v == fold_spec(
                        r.v,
                        round as nat,
                        q as nat,
                        seq_vals(self.encoding@)[2 * q],
                        seq_vals(self.encoding@)[2 * q + 1],
                    ),
            decreases half - i,
        {
            out.push(fold(r, round, i, self.encoding[2 * i], self.encoding[2 * i + 1], ntt));
            i = i + 1;
        }
        proof {
            assert(seq_vals(out@) =~= fold_seq_spec(r.v, round as nat, seq_vals(self.encoding@)));
        }
        Ok(Code { encoding: out })
    }

    /// The codeword entry at `idx`; the position is the caller's obligation.
    pub fn idx(&self, idx: usize) -> (r: F128)
        requires
            idx < self.encoding@.len(),
        ensures
            r == self.encoding@[idx as int],
    {
        self.encoding[idx]
    }
}

impl Default for Code {
    /// The empty codeword.
    fn default() -> (r: Code)
        ensures
            r.encoding@.len() == 0,
    {
        Code { encoding: Vec::new() }
    }
}

/// Encoding is a pure function of the message and the domain configuration:
/// two encodings of the same message on the same domain are identical.
pub proof fn lemma_encode_deterministic(log_n: nat, msg: Seq<u128>, c1: Seq<u128>, c2: Seq<u128>)
    requires
        c1 == encode_spec(log_n, msg),
        c2 == encode_spec(log_n, msg),
    ensures
        c1 == c2,
{
}

/// The fold is an affine function of the challenge: for a fixed round, index
/// and input pair, its value at any challenge lies on the line through its
/// values at challenge 0 and challenge 1.
pub proof fn lemma_fold_affine(round: nat, idx: nat, v0: u128, v1: u128, ch: u128)
    ensures
        fold_spec(ch, round, idx, v0, v1) == fold_spec(0, round, idx, v0, v1) ^ mul_spec(
            ch,
            fold_spec(0, round, idx, v0, v1) ^ fold_spec(1, round, idx, v0, v1),
        ),
{
    let t = twiddle_spec(round, idx);
    let x1 = v1 ^ v0;
    let x0 = v0 ^ mul_spec(x1, t);
    let s = x0 ^ x1;
    lemma_mul_zero(s);
    lemma_mul_one(s);
    assert(x0 ^ 0u128 == x0) by (bit_vector);
    assert(x0 ^ (x0 ^ s) == s) by (bit_vector);
}

/// The fold of an encoding recovers the message's multilinear extension:
/// for a message of two elements, folding its codeword once at any challenge
/// leaves, at every coset's position, the value of the message's multilinear
/// extension at that challenge, whatever twiddles the domain supplies.
pub proof fn lemma_fold_recovers_extension(msg: Seq<u128>, ch: u128)
    requires
        msg.len() == 2,
    ensures
        fold_seq_spec(ch, 0, encode_spec(1, msg)) =~= Seq::new(
            RATE as nat,
            |c: int| msg[0] ^ mul_spec(ch, msg[0] ^ msg[1]),
        ),
{
    let enc = encode_spec(1, msg);
    lemma2_to64();
    assert forall|c: int| 0 <= c < RATE implies fold_seq_spec(ch, 0, enc)[c] == msg[0] ^ mul_spec(
        ch,
        msg[0] ^ msg[1],
    ) by {
        lemma_fundamental_div_mod_converse_div(2 * c, 2, c, 0);
        lemma_fundamental_div_mod_converse_mod(2 * c, 2, c, 0);
        lemma_fundamental_div_mod_converse_div(2 * c + 1, 2, c, 1);
        lemma_fundamental_div_mod_converse_mod(2 * c + 1, 2, c, 1);
        let tr = transform_spec(c as nat, 1, msg);
        assert(rounds_from(c as nat, 1, 1, msg) == msg);
        assert(tr == butterfly_round(c as nat, 1, 0, msg));
        assert(pow2(0) == 1);
        assert(tr[0] == round_out(c as nat, 1, 0, msg, 0));
        assert(tr[1] == round_out(c as nat, 1, 0, msg, 1));
        let t = twiddle_spec(0, c as nat);
        assert((c as nat) * pow2(0nat) + (0int as nat) == c as nat);
        assert(tr[0] == msg[0] ^ mul_spec(msg[1], t));
        assert(tr[1] == (msg[0] ^ mul_spec(msg[1], t)) ^ msg[1]);
        assert(enc[2 * c] == tr[0]);
        assert(enc[2 * c + 1] == tr[1]);
        let u = msg[0];
        let w = mul_spec(msg[1], t);
        let m1 = msg[1];
        assert(((u ^ w) ^ m1) ^ (u ^ w) == m1) by (bit_vector);
        assert((u ^ w) ^ w == u) by (bit_vector);
    }
}

/// One fold round undoes the encoder's adjacent butterfly layer: wherever a
/// layer-0 butterfly of coset `c` combined the pair (g[2j], g[2j + 1]), the
/// fold of the layer's output at the matching global index recovers that
/// pair's affine combination at the challenge. The twiddle the fold looks up
/// is the one the encoder used, whatever the domain supplies for it.
pub proof fn lemma_fold_undoes_last_layer(ch: u128, log_n: nat, c: nat, g: Seq<u128>, j: int)
    requires
        log_n >= 1,
        g.len() == pow2(log_n),
        0 <= j < pow2((log_n - 1) as nat),
    ensures
        fold_spec(
            ch,
            0,
            c * pow2((log_n - 1) as nat) + j as nat,
            butterfly_round(c, log_n, 0, g)[2 * j],
            butterfly_round(c, log_n, 0, g)[2 * j + 1],
        ) == g[2 * j] ^ mul_spec(ch, g[2 * j] ^ g[2 * j + 1]),
{
    let h = butterfly_round(c, log_n, 0, g);
    lemma2_to64();
    lemma_pow2_unfold(log_n);
    lemma_fundamental_div_mod_converse_div(2 * j, 2, j, 0);
    lemma_fundamental_div_mod_converse_mod(2 * j, 2, j, 0);
    lemma_fundamental_div_mod_converse_div(2 * j + 1, 2, j, 1);
    lemma_fundamental_div_mod_converse_mod(2 * j + 1, 2, j, 1);
    assert(h[2 * j] == round_out(c, log_n, 0, g, 2 * j));
    assert(h[2 * j + 1] == round_out(c, log_n, 0, g, 2 * j + 1));
    let t = twiddle_spec(0, c * pow2((log_n - 1) as nat) + j as nat);
    assert(h[2 * j] == g[2 * j] ^ mul_spec(g[2 * j + 1], t));
    assert(h[2 * j + 1] == (g[2 * j] ^ mul_spec(g[2 * j + 1], t)) ^ g[2 * j + 1]);
    let u = g[2 * j];
    let w = mul_spec(g[2 * j + 1], t);
    let m1 = g[2 * j + 1];
    assert(((u ^ w) ^ m1) ^ (u ^ w) == m1) by (bit_vector);
    assert((u ^ w) ^ w == u) by (bit_vector);
}

/// The first fold round of a whole codeword undoes the last butterfly layer
/// of every coset at once: although the fold walks one flat index range, at
/// each coset's positions it looks up exactly the twiddles that coset's
/// layer used, and recovers the affine combination, at the challenge, of the
/// two values the layer combined.
pub proof fn lemma_first_fold_undoes_encode_layer(
    msg: Seq<u128>,
    log_n: nat,
    ch: u128,
    c: int,
    j: int,
)
    requires
        log_n >= 1,
        msg.len() == pow2(log_n),
        0 <= c < RATE,
        0 <= j < pow2((log_n - 1) as nat),
    ensures
        fold_seq_spec(ch, 0, encode_spec(log_n, msg))[c * pow2((log_n - 1) as nat) + j]
            == rounds_from(c as nat, log_n, 1, msg)[2 * j] ^ mul_spec(
            ch,
            rounds_from(c as nat, log_n, 1, msg)[2 * j] ^ rounds_from(c as nat, log_n, 1, msg)[2 * j
                + 1],
        ),
{
    let g = rounds_from(c as nat, log_n, 1, msg);
    lemma_rounds_from_len(c as nat, log_n, 1, msg);
    lemma_pow2_unfold(log_n);
    let len = msg.len() as int;
    let half = pow2((log_n - 1) as nat) as int;
    let i = c * half + j;
    assert(0 <= i < 2 * len && 2 * i == c * len + 2 * j && 2 * i + 1 == c * len + 2 * j + 1)
        by (nonlinear_arith)
        requires
            0 <= c < 4,
            0 <= j < half,
            len == 2 * half,
            i == c * half + j,
    ;
    lemma_fundamental_div_mod_converse_div(c * len + 2 * j, len, c, 2 * j);
    lemma_fundamental_div_mod_converse_mod(c * len + 2 * j, len, c, 2 * j);
    lemma_fundamental_div_mod_converse_div(c * len + 2 * j + 1, len, c, 2 * j + 1);
    lemma_fundamental_div_mod_converse_mod(c * len + 2 * j + 1, len, c, 2 * j + 1);
    assert(transform_spec(c as nat, log_n, msg) == butterfly_round(c as nat, log_n, 0, g));
    lemma_fold_undoes_last_layer(ch, log_n, c as nat, g, j);
}

/// Block `c` of the encoding is exactly the transform of the message on
/// coset `c`: the `RATE` sub-evaluations stand side by side, each produced
/// at its own coset index, none permuted into another's range.
pub proof fn lemma_coset_block(log_n: nat, msg: Seq<u128>, c: int)
    requires
        0 <= c < RATE,
        msg.len() > 0,
    ensures
        encode_spec(log_n, msg).subrange(c * msg.len() as int, (c + 1) * msg.len() as int)
            =~= transform_spec(c as nat, log_n, msg).take(msg.len() as int),
{
    let len = msg.len() as int;
    lemma_rounds_from_len(c as nat, log_n, 0, msg);
    let lhs = encode_spec(log_n, msg).subrange(c * len, (c + 1) * len);
    let rhs = transform_spec(c as nat, log_n, msg).take(len);
    assert((c + 1) * len == c * len + len && (c + 1) * len <= 4 * len && 0 <= c * len)
        by (nonlinear_arith)
        requires
            0 <= c < 4,
            len > 0,
    ;
    assert forall|k: int| 0 <= k < len implies #[trigger] lhs[k] == rhs[k] by {
        let gi = c * len + k;
        lemma_fundamental_div_mod_converse_div(gi, len, c, k);
        lemma_fundamental_div_mod_converse_mod(gi, len, c, k);
        assert(lhs[k] == encode_spec(log_n, msg)[gi]);
    }
    assert(lhs =~= rhs);
}

} // verus!
