//! The context of a ring `R_q`: an ordered list of moduli, a degree, and all the
//! constants derived from them, linked to the context of the same list without
//! its last modulus.
use crate::arith::{bit_reverse, degree_ok, gcd, mul_mod, shoup_of};
use crate::big::big_value;
use crate::error::Error;
use crate::ntt::{bit_reverse_table, is_power_of_two, ntt_feasible, NttOperator};
use crate::rns::{chain_coprime, moduli_ok, product_of, RnsContext};
use crate::zq::Modulus;
use num_bigint::BigUint;
use std::sync::Arc;
use vstd::arithmetic::div_mod::*;
use vstd::prelude::*;

verus! {

/// What identifies a context: its moduli, in order, and its degree.
pub struct ContextView {
    pub moduli: Seq<u64>,
    pub degree: nat,
}

/// Every modulus of the list admits a transform of size `degree`.
pub open spec fn all_feasible(moduli: Seq<u64>, degree: int) -> bool {
    forall|i: int| 0 <= i < moduli.len() ==> ntt_feasible(#[trigger] moduli[i] as int, degree)
}

/// The last modulus has an inverse modulo each of the others.
pub open spec fn last_invertible(moduli: Seq<u64>) -> bool {
    forall|j: int|
        0 <= j < moduli.len() - 1 ==> gcd(
            #[trigger] moduli[j] as nat,
            (moduli.last() as nat) % (moduli[j] as nat),
        ) == 1
}

/// The index of the first modulus that admits no transform of size `degree`.
pub open spec fn first_infeasible(moduli: Seq<u64>, degree: int) -> int {
    choose|i: int|
        0 <= i < moduli.len() && !ntt_feasible(#[trigger] moduli[i] as int, degree) && forall|
            j: int,
        |
            0 <= j < i ==> ntt_feasible(#[trigger] moduli[j] as int, degree)
}

/// The largest number of residues of one polynomial: with sixteen bytes for each,
/// one table and its Shoup encoding, they fit the address space.
pub open spec fn max_entries() -> int {
    isize::MAX / 16
}

/// The error that the list itself gives rise to, shorter lists apart.
pub open spec fn local_error(moduli: Seq<u64>, degree: int) -> Option<Error> {
    if !degree_ok(degree) {
        Some(Error::InvalidDegree)
    } else if RnsContext::new_spec(moduli) is Some {
        RnsContext::new_spec(moduli)
    } else if moduli.len() * degree > max_entries() {
        Some(Error::TooLarge)
    } else if !all_feasible(moduli, degree) {
        Some(Error::NttNotSupported(moduli[first_infeasible(moduli, degree)]))
    } else if !last_invertible(moduli) {
        Some(Error::ModuliNotCoprime)
    } else {
        None
    }
}

/// What `Context::new` answers: the error of the list itself, or else that of
/// the list without its last modulus, and so on down to one modulus.
pub open spec fn new_error(moduli: Seq<u64>, degree: int) -> Option<Error>
    decreases moduli.len(),
{
    if local_error(moduli, degree) is Some {
        local_error(moduli, degree)
    } else if moduli.len() >= 2 {
        new_error(moduli.drop_last(), degree)
    } else {
        None
    }
}

/// The context `k` steps down the chain of `of`: the same degree, and the moduli
/// without the last `k` of them.
pub open spec fn level_view(of: ContextView, k: int) -> ContextView {
    ContextView { moduli: of.moduli.take(of.moduli.len() - k), degree: of.degree }
}

/// `target` is found in the chain of `of`: it has the same degree, and its
/// moduli are the first of those of `of`.
pub open spec fn is_level_of(target: ContextView, of: ContextView) -> bool {
    &&& target.degree == of.degree
    &&& 1 <= target.moduli.len() <= of.moduli.len()
    &&& target.moduli == of.moduli.take(target.moduli.len() as int)
}

/// The arithmetic and the transform of each modulus, where every modulus admits
/// a transform of size `degree`; else the index of the first that admits none.
fn build_operators(rns: &RnsContext, moduli: &[u64], degree: usize) -> (r: Result<
    (Vec<Modulus>, Vec<NttOperator>),
    usize,
>)
    requires
        rns.wf(),
        rns.moduli() == moduli@,
    ensures
        r is Ok <==> all_feasible(moduli@, degree as int),
        r matches Err(i) ==> i == first_infeasible(moduli@, degree as int) && i < moduli@.len(),
        r matches Ok(pair) ==> {
            &&& pair.0@.len() == moduli@.len()
            &&& pair.1@.len() == moduli@.len()
            &&& forall|j: int|
                0 <= j < moduli@.len() ==> (#[trigger] pair.0@[j]).wf() && pair.0@[j].value()
                    == moduli@[j]
            &&& forall|j: int|
                0 <= j < moduli@.len() ==> (#[trigger] pair.1@[j]).wf() && pair.1@[j].modulus()
                    == moduli@[j] && pair.1@[j].size() == degree
        },
{
    let m: usize = moduli.len();
    let mut q: Vec<Modulus> = Vec::with_capacity(m);
    let mut ops: Vec<NttOperator> = Vec::with_capacity(m);
    let mut i: usize = 0;
    while i < m
        invariant
            0 <= i <= m,
            m == moduli@.len(),
            rns.wf(),
            rns.moduli() == moduli@,
            q@.len() == i,
            ops@.len() == i,
            forall|j: int| 0 <= j < i ==> ntt_feasible(#[trigger] moduli@[j] as int, degree as int),
            forall|j: int| 0 <= j < i ==> (#[trigger] q@[j]).wf() && q@[j].value() == moduli@[j],
            forall|j: int|
                0 <= j < i ==> (#[trigger] ops@[j]).wf() && ops@[j].modulus() == moduli@[j]
                    && ops@[j].size() == degree,
        decreases m - i,
    {
        let qi: Modulus = rns.arith(i);
        match NttOperator::new(&qi, degree) {
            Some(op) => {
                q.push(qi);
                ops.push(op);
            },
            None => {
                proof {
                    let w = first_infeasible(moduli@, degree as int);
                    assert(!ntt_feasible(moduli@[i as int] as int, degree as int));
                    assert(w == i) by {
                        if w < i {
                            assert(ntt_feasible(moduli@[w] as int, degree as int));
                        } else if w > i {
                            assert(ntt_feasible(moduli@[i as int] as int, degree as int));
                        }
                    }
                }
                return Err(i);
            },
        }
        i += 1;
    }
    Ok((q, ops))
}

/// The inverse of the last modulus modulo each of the others, and the Shoup
/// encodings of these inverses, where the inverses exist.
fn build_inverses(q: &Vec<Modulus>, moduli: &[u64]) -> (r: Option<(Vec<u64>, Vec<u64>)>)
    requires
        moduli@.len() >= 1,
        q@.len() == moduli@.len(),
        forall|k: int| 0 <= k < moduli@.len() ==> (#[trigger] q@[k]).wf() && q@[k].value() == moduli@[k],
    ensures
        r is Some <==> last_invertible(moduli@),
        r matches Some(pair) ==> {
            &&& pair.0@.len() == moduli@.len() - 1
            &&& pair.1@.len() == moduli@.len() - 1
            &&& forall|k: int|
                0 <= k < moduli@.len() - 1 ==> (#[trigger] pair.0@[k]) < moduli@[k] && mul_mod(
                    (moduli@.last() as int) % (moduli@[k] as int),
                    pair.0@[k] as int,
                    moduli@[k] as int,
                ) == 1
            &&& forall|k: int|
                0 <= k < moduli@.len() - 1 ==> (#[trigger] pair.1@[k]) == shoup_of(
                    pair.0@[k] as int,
                    moduli@[k] as int,
                )
        },
{
    let m: usize = moduli.len();
    let mut inverses: Vec<u64> = Vec::with_capacity(m - 1);
    let mut encoded: Vec<u64> = Vec::with_capacity(m - 1);
    let q_last: u64 = moduli[m - 1];
    let mut j: usize = 0;
    while j < m - 1
        invariant
            0 <= j <= m - 1,
            m == moduli@.len(),
            q_last == moduli@.last(),
            q@.len() == m,
            forall|k: int| 0 <= k < m ==> (#[trigger] q@[k]).wf() && q@[k].value() == moduli@[k],
            inverses@.len() == j,
            encoded@.len() == j,
            forall|k: int|
                0 <= k < j ==> gcd(
                    #[trigger] moduli@[k] as nat,
                    (moduli@.last() as nat) % (moduli@[k] as nat),
                ) == 1,
            forall|k: int|
                0 <= k < j ==> (#[trigger] inverses@[k]) < moduli@[k] && mul_mod(
                    (moduli@.last() as int) % (moduli@[k] as int),
                    inverses@[k] as int,
                    moduli@[k] as int,
                ) == 1,
            forall|k: int|
                0 <= k < j ==> (#[trigger] encoded@[k]) == shoup_of(
                    inverses@[k] as int,
                    moduli@[k] as int,
                ),
        decreases m - 1 - j,
    {
        let qj: Modulus = q[j];
        match qj.inv(qj.reduce(q_last)) {
            Some(inv) => {
                inverses.push(inv);
                encoded.push(qj.shoup(inv));
            },
            None => {
                return None;
            },
        }
        j += 1;
    }
    Some((inverses, encoded))
}

/// Struct that holds the context associated with elements in rq.
#[derive(Debug)]
pub struct Context {
    moduli: Vec<u64>,
    q: Vec<Modulus>,
    rns: Arc<RnsContext>,
    ops: Arc<Vec<NttOperator>>,
    degree: usize,
    bitrev: Vec<usize>,
    inv_last_qi_mod_qj: Vec<u64>,
    inv_last_qi_mod_qj_shoup: Vec<u64>,
    next_context: Option<Arc<Context>>,
}

impl View for Context {
    type V = ContextView;

    closed spec fn view(&self) -> ContextView {
        ContextView { moduli: self.moduli@, degree: self.degree as nat }
    }
}

impl Context {
    /// The context of the moduli without the last one, if there is more than one.
    pub closed spec fn next(&self) -> Option<Arc<Context>> {
        self.next_context
    }

    /// The number of contexts that follow this one in the chain.
    pub closed spec fn chain_length(&self) -> nat
        decreases self,
    {
        match self.next_context {
            None => 0,
            Some(next) => 1 + next.chain_length(),
        }
    }

    /// The tables of the context are those that belong to its moduli and degree.
    pub closed spec fn tables_ok(&self) -> bool {
        let m = self.moduli@.len();
        let n = self.degree as int;
        &&& self.q@.len() == m
        &&& self.rns.wf()
        &&& self.rns.moduli() == self.moduli@
        &&& self.ops@.len() == m
        &&& self.bitrev@.len() == n
        &&& self.inv_last_qi_mod_qj@.len() == m - 1
        &&& self.inv_last_qi_mod_qj_shoup@.len() == m - 1
        &&& forall|i: int|
            0 <= i < m ==> (#[trigger] self.q@[i]).wf() && self.q@[i].value() == self.moduli@[i]
        &&& forall|i: int|
            0 <= i < m ==> (#[trigger] self.ops@[i]).wf() && self.ops@[i].modulus()
                == self.moduli@[i] && self.ops@[i].size() == n
        &&& forall|k: int|
            0 <= k < n ==> (#[trigger] self.bitrev@[k]) == bit_reverse(k as nat, n as nat)
        &&& forall|j: int|
            0 <= j < m - 1 ==> (#[trigger] self.inv_last_qi_mod_qj@[j]) < self.moduli@[j]
                && mul_mod(
                (self.moduli@.last() as int) % (self.moduli@[j] as int),
                self.inv_last_qi_mod_qj@[j] as int,
                self.moduli@[j] as int,
            ) == 1
        &&& forall|j: int|
            0 <= j < m - 1 ==> (#[trigger] self.inv_last_qi_mod_qj_shoup@[j]) == shoup_of(
                self.inv_last_qi_mod_qj@[j] as int,
                self.moduli@[j] as int,
            )
    }

    /// The invariant of the type: the list of moduli and the degree are
    /// accepted, the tables belong to them, and the next context is the
    /// well-formed context of the list without its last modulus.
    pub closed spec fn wf(&self) -> bool
        decreases self,
    {
        &&& local_error(self.moduli@, self.degree as int) is None
        &&& self.tables_ok()
        &&& match self.next_context {
            None => self.moduli@.len() == 1,
            Some(next) => self.moduli@.len() >= 2 && next.wf() && next@ == (ContextView {
                moduli: self.moduli@.drop_last(),
                degree: self.degree as nat,
            }),
        }
    }

    /// What holds of the moduli and the degree of every well-formed context.
    pub proof fn lemma_wf(&self)
        requires
            self.wf(),
        ensures
            new_error(self@.moduli, self@.degree as int) is None,
            local_error(self@.moduli, self@.degree as int) is None,
            self@.moduli.len() >= 1,
            degree_ok(self@.degree as int),
            moduli_ok(self@.moduli),
            chain_coprime(self@.moduli),
            all_feasible(self@.moduli, self@.degree as int),
            self@.moduli.len() * self@.degree <= max_entries(),
            self@.moduli.len() <= max_entries(),
            self@.degree <= max_entries(),
            self.chain_length() == self@.moduli.len() - 1,
            match self.next() {
                None => self@.moduli.len() == 1,
                Some(next) => self@.moduli.len() >= 2 && next.wf() && next@ == (ContextView {
                    moduli: self@.moduli.drop_last(),
                    degree: self@.degree,
                }),
            },
        decreases self,
    {
        match self.next_context {
            None => {},
            Some(next) => {
                next.lemma_wf();
            },
        }
        let m = self@.moduli.len() as int;
        let n = self@.degree as int;
        assert(m <= m * n && n <= m * n) by (nonlinear_arith)
            requires
                m >= 1,
                n >= 8,
        ;
    }

    /// Creates a context from a list of moduli and a polynomial degree.
    ///
    /// Returns an error if the degree is not a power of two that is at least 8,
    /// if the moduli are not coprime numbers of less than 62 bits, or if one of
    /// them is not a prime that supports the transform of size `degree`.
    pub fn new(moduli: &[u64], degree: usize) -> (r: Result<Context, Error>)
        ensures
            match r {
                Ok(ctx) => new_error(moduli@, degree as int) is None && ctx.wf() && ctx@ == (
                ContextView { moduli: moduli@, degree: degree as nat }) && ctx.chain_length()
                    == moduli@.len() - 1,
                Err(e) => new_error(moduli@, degree as int) == Some(e),
            },
        decreases moduli@.len(),
    {
        if degree < 8 || !is_power_of_two(degree) {
            return Err(Error::InvalidDegree);
        }
        let rns: RnsContext = match RnsContext::new(moduli) {
            Ok(rns) => rns,
            Err(e) => {
                return Err(e);
            },
        };
        let m: usize = moduli.len();
        match m.checked_mul(degree) {
            Some(entries) => {
                if entries > (isize::MAX as usize) / 16 {
                    return Err(Error::TooLarge);
                }
            },
            None => {
                return Err(Error::TooLarge);
            },
        }
        let (q, ops) = match build_operators(&rns, moduli, degree) {
            Ok(pair) => pair,
            Err(i) => {
                return Err(Error::NttNotSupported(moduli[i]));
            },
        };
        let bitrev: Vec<usize> = bit_reverse_table(degree);
        let (inv_last_qi_mod_qj, inv_last_qi_mod_qj_shoup) = match build_inverses(&q, moduli) {
            Some(pair) => pair,
            None => {
                return Err(Error::ModuliNotCoprime);
            },
        };
        let mut copy: Vec<u64> = Vec::with_capacity(m);
        copy.extend_from_slice(moduli);
        assert(copy@ =~= moduli@);
        assert(local_error(moduli@, degree as int) is None);
        let next_context: Option<Arc<Context>> = if m >= 2 {
            let shorter: &[u64] = vstd::slice::slice_subrange(moduli, 0, m - 1);
            assert(shorter@ =~= moduli@.drop_last());
            match Context::new(shorter, degree) {
                Ok(next) => Some(Arc::new(next)),
                Err(e) => {
                    return Err(e);
                },
            }
        } else {
            None
        };
        let ctx = Context {
            moduli: copy,
            q,
            rns: Arc::new(rns),
            ops: Arc::new(ops),
            degree,
            bitrev,
            inv_last_qi_mod_qj,
            inv_last_qi_mod_qj_shoup,
            next_context,
        };
        proof {
            ctx.lemma_wf();
        }
        Ok(ctx)
    }

    /// Returns the modulus as a BigUint: the product of all moduli.
    pub fn modulus(&self) -> (r: &BigUint)
        requires
            self.wf(),
        ensures
            big_value(*r) == product_of(self@.moduli, self@.moduli.len()),
    {
        self.rns.modulus()
    }

    /// Returns a reference to the moduli in this context.
    pub fn moduli(&self) -> (r: &[u64])
        ensures
            r@ == self@.moduli,
    {
        self.moduli.as_slice()
    }

    /// The degree of the polynomials of this context.
    pub fn degree(&self) -> (r: usize)
        ensures
            r == self@.degree,
    {
        self.degree
    }

    /// The number of moduli.
    pub fn len(&self) -> (r: usize)
        ensures
            r == self@.moduli.len(),
    {
        self.moduli.len()
    }

    /// The arithmetic of modulus `i`.
    pub fn modulus_at(&self, i: usize) -> (r: &Modulus)
        requires
            self.wf(),
            i < self@.moduli.len(),
        ensures
            r.wf(),
            r.value() == self@.moduli[i as int],
    {
        &self.q[i]
    }

    /// The transform of modulus `i`.
    pub fn operator_at(&self, i: usize) -> (r: &NttOperator)
        requires
            self.wf(),
            i < self@.moduli.len(),
        ensures
            r.wf(),
            r.modulus() == self@.moduli[i as int],
            r.size() == self@.degree,
    {
        &self.ops[i]
    }

    /// The residue number system of the moduli.
    pub fn rns(&self) -> (r: &RnsContext)
        requires
            self.wf(),
        ensures
            r.wf(),
            r.moduli() == self@.moduli,
    {
        &self.rns
    }

    /// The table of the indices below the degree with their bits reversed.
    pub fn bitrev(&self) -> (r: &[usize])
        requires
            self.wf(),
        ensures
            r@.len() == self@.degree,
            forall|k: int|
                0 <= k < r@.len() ==> (#[trigger] r@[k]) == bit_reverse(k as nat, self@.degree),
    {
        self.bitrev.as_slice()
    }

    /// For each modulus but the last, the inverse of the last modulus modulo it.
    pub fn inv_last_qi_mod_qj(&self) -> (r: &[u64])
        requires
            self.wf(),
        ensures
            r@ == self.inv_last_qi_mod_qj_spec(),
            r@.len() == self@.moduli.len() - 1,
            forall|j: int|
                0 <= j < r@.len() ==> (#[trigger] r@[j]) < self@.moduli[j] && mul_mod(
                    (self@.moduli.last() as int) % (self@.moduli[j] as int),
                    r@[j] as int,
                    self@.moduli[j] as int,
                ) == 1,
    {
        self.inv_last_qi_mod_qj.as_slice()
    }

    /// The Shoup encodings of the inverses of the last modulus.
    pub fn inv_last_qi_mod_qj_shoup(&self) -> (r: &[u64])
        requires
            self.wf(),
        ensures
            r@.len() == self@.moduli.len() - 1,
            forall|j: int|
                0 <= j < r@.len() ==> (#[trigger] r@[j]) == shoup_of(
                    self.inv_last_qi_mod_qj_spec()[j] as int,
                    self@.moduli[j] as int,
                ),
    {
        self.inv_last_qi_mod_qj_shoup.as_slice()
    }

    /// The inverses of the last modulus, as `inv_last_qi_mod_qj` returns them.
    pub closed spec fn inv_last_qi_mod_qj_spec(&self) -> Seq<u64> {
        self.inv_last_qi_mod_qj@
    }

    /// The context that follows this one in the chain, if any.
    pub fn next_context(&self) -> (r: Option<Arc<Context>>)
        ensures
            r == self.next(),
    {
        match &self.next_context {
            Some(next) => Some(Arc::clone(next)),
            None => None,
        }
    }

    /// Whether two contexts are the same: whether they have the same moduli, in
    /// the same order, and the same degree.
    pub fn same_as(&self, other: &Context) -> (r: bool)
        ensures
            r == (self@ == other@),
    {
        if self.degree != other.degree || self.moduli.len() != other.moduli.len() {
            return false;
        }
        let m: usize = self.moduli.len();
        let mut i: usize = 0;
        while i < m
            invariant
                0 <= i <= m,
                m == self.moduli@.len(),
                m == other.moduli@.len(),
                forall|j: int| 0 <= j < i ==> self.moduli@[j] == other.moduli@[j],
            decreases m - i,
        {
            if self.moduli[i] != other.moduli[i] {
                return false;
            }
            i += 1;
        }
        assert(self.moduli@ =~= other.moduli@);
        true
    }

    /// Returns the number of iterations to switch to a children context.
    /// Returns an error if the context provided is not a child context.
    pub fn niterations_to(&self, context: &Arc<Context>) -> (r: Result<usize, Error>)
        requires
            self.wf(),
        ensures
            match r {
                Ok(k) => is_level_of(context@, self@) && k == self@.moduli.len()
                    - context@.moduli.len(),
                Err(e) => e == Error::InvalidContext && !is_level_of(context@, self@),
            },
    {
        let ghost top = self@;
        let ghost target = context@;
        let ghost m = top.moduli.len() as int;
        proof {
            self.lemma_wf();
            assert(top.moduli.take(m) =~= top.moduli);
        }
        if self.same_as(context) {
            return Ok(0);
        }
        let count: usize = self.moduli.len();
        let mut niterations: usize = 0;
        let mut current: &Context = self;
        loop
            invariant
                current.wf(),
                0 <= niterations < m,
                m == top.moduli.len(),
                m == count,
                top == self@,
                target == context@,
                current@ == level_view(top, niterations as int),
                forall|k: int| 0 <= k <= niterations ==> level_view(top, k) != target,
            decreases m - niterations,
        {
            proof {
                current.lemma_wf();
            }
            match &current.next_context {
                None => {
                    proof {
                        assert(current@.moduli.len() == 1);
                        assert(niterations == m - 1);
                        if is_level_of(target, top) {
                            let k = m - target.moduli.len();
                            assert(0 <= k <= niterations);
                            assert(level_view(top, k).moduli =~= target.moduli);
                            assert(level_view(top, k) == target);
                        }
                    }
                    return Err(Error::InvalidContext);
                },
                Some(next) => {
                    let ghost before = current@;
                    niterations += 1;
                    current = &**next;
                    proof {
                        assert(before.moduli.len() == m - niterations + 1);
                        assert(current@.moduli =~= top.moduli.take(m - niterations)) by {
                            assert(top.moduli.take(m - niterations + 1).drop_last()
                                =~= top.moduli.take(m - niterations));
                        }
                        assert(current@ == level_view(top, niterations as int));
                    }
                    if current.same_as(context) {
                        proof {
                            assert(target.moduli.len() == m - niterations);
                            assert(target.moduli =~= top.moduli.take(target.moduli.len() as int));
                        }
                        return Ok(niterations);
                    }
                },
            }
        }
    }

    /// Returns the context after `i` iterations.
    pub fn context_at_level(&self, i: usize) -> (r: Result<Arc<Context>, Error>)
        requires
            self.wf(),
        ensures
            match r {
                Ok(ctx) => i < self@.moduli.len() && ctx.wf() && ctx@ == level_view(self@, i as int),
                Err(e) => e == Error::NoContextAtLevel && i >= self@.moduli.len(),
            },
    {
        let ghost top = self@;
        let ghost m = top.moduli.len() as int;
        proof {
            self.lemma_wf();
            assert(top.moduli.take(m) =~= top.moduli);
        }
        if i >= self.moduli.len() {
            return Err(Error::NoContextAtLevel);
        }
        let mut current: Arc<Context> = Arc::new(self.clone());
        let mut level: usize = 0;
        while level < i
            invariant
                current.wf(),
                0 <= level <= i < m,
                m == top.moduli.len(),
                current@ == level_view(top, level as int),
            decreases i - level,
        {
            proof {
                current.lemma_wf();
                assert(top.moduli.take(m - level).drop_last() =~= top.moduli.take(m - level - 1));
            }
            let next: Option<Arc<Context>> = current.next_context();
            match next {
                Some(n) => {
                    current = n;
                },
                None => {
                    return Err(Error::NoContextAtLevel);
                },
            }
            level += 1;
        }
        Ok(current)
    }
}

impl Clone for Context {
    /// A context with the same moduli, degree and tables, which shares the next
    /// context with this one.
    fn clone(&self) -> (r: Self)
        ensures
            r@ == self@,
            r.next() == self.next(),
            self.wf() ==> r.wf(),
    {
        let r = Context {
            moduli: self.moduli.clone(),
            q: self.q.clone(),
            rns: Arc::clone(&self.rns),
            ops: Arc::clone(&self.ops),
            degree: self.degree,
            bitrev: self.bitrev.clone(),
            inv_last_qi_mod_qj: self.inv_last_qi_mod_qj.clone(),
            inv_last_qi_mod_qj_shoup: self.inv_last_qi_mod_qj_shoup.clone(),
            next_context: self.next_context(),
        };
        proof {
            assert(r.moduli@ =~= self.moduli@);
            assert(r.bitrev@ =~= self.bitrev@);
            assert(r.inv_last_qi_mod_qj@ =~= self.inv_last_qi_mod_qj@);
            assert(r.inv_last_qi_mod_qj_shoup@ =~= self.inv_last_qi_mod_qj_shoup@);
            assert(r.q@ =~= self.q@);
        }
        r
    }
}

} // verus!
