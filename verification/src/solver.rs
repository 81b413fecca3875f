//! The executable solver: clause storage, the variable registry, the
//! assignment trail with its active-variable mask, and the DPLL search.

use vstd::prelude::*;
use vstd::string::StrSliceExecFns;
use vstd::string::StringExecFns;

use crate::semantics::clause_dead;
use crate::semantics::clause_sat_by_trail;
use crate::semantics::clause_slot;
use crate::semantics::clause_vec;
use crate::semantics::cnf_satisfiable;
use crate::semantics::count_true;
use crate::semantics::extendable_to_sat;
use crate::semantics::first_unit;
use crate::semantics::format_entry;
use crate::semantics::format_trail;
use crate::semantics::has_unit;
use crate::semantics::insert_name;
use crate::semantics::is_pure;
use crate::semantics::is_pure_any;
use crate::semantics::is_unit_of;
use crate::semantics::lemma_all_sat_extendable;
use crate::semantics::lemma_branch;
use crate::semantics::lemma_count_true_lt;
use crate::semantics::lemma_dead_unsat;
use crate::semantics::lemma_empty_trail_extendable;
use crate::semantics::lemma_extendable_prefix;
use crate::semantics::lemma_mask_determined;
use crate::semantics::lemma_pure_step;
use crate::semantics::lemma_registry_clause_snoc;
use crate::semantics::lemma_registry_cnf_snoc;
use crate::semantics::lemma_state_inv_assign;
use crate::semantics::lemma_unit_step;
use crate::semantics::lowest_active;
use crate::semantics::lowest_pure;
use crate::semantics::mask_matches_trail;
use crate::semantics::on_trail;
use crate::semantics::registry;
use crate::semantics::registry_clause;
use crate::semantics::registry_cnf;
use crate::semantics::search_main;
use crate::semantics::search_pure;
use crate::semantics::state_inv;
use crate::semantics::token_malformed;
use crate::semantics::token_name;
use crate::semantics::token_pol;
use crate::semantics::trail_wf;
use crate::semantics::unit_of;

pub use crate::semantics::Literal;

verus! {

/// One disjunction of the CNF, stored as a full-length vector with one
/// entry per registered variable.
#[derive(Debug)]
pub struct Clause {
    pub disjunction: Vec<Literal>,
}

impl View for Clause {
    type V = Seq<Literal>;

    open spec fn view(&self) -> Seq<Literal> {
        self.disjunction@
    }
}

impl Clause {
    /// Under the given mask, no literal of this clause is still active:
    /// the "empty clause" contradiction test.
    pub fn is_empty(&self, is_literal_alive: &Vec<bool>) -> (r: bool)
        requires
            is_literal_alive@.len() == self@.len(),
        ensures
            r == clause_dead(self@, is_literal_alive@),
    {
        let mut i: usize = 0;
        while i < is_literal_alive.len()
            invariant
                i <= is_literal_alive@.len(),
                is_literal_alive@.len() == self@.len(),
                forall|j: int| 0 <= j < i && (#[trigger] is_literal_alive@[j]) ==> self@[j] == Literal::Absent,
            decreases is_literal_alive@.len() - i,
        {
            if is_literal_alive[i] {
                if !matches!(self.disjunction[i], Literal::Absent) {
                    return false;
                }
            }
            i += 1;
        }
        true
    }

    /// Scans the active variables; when exactly one of them still has a
    /// literal in this clause, returns that literal as a forced unit.
    pub fn find_unit(&self, is_literal_alive: &Vec<bool>) -> (r: Option<(Literal, usize)>)
        requires
            is_literal_alive@.len() == self@.len(),
        ensures
            match r {
                Some(u) => is_unit_of(self@, is_literal_alive@, u.1 as int) && u.0 == self@[u.1 as int],
                None => forall|i: int| !is_unit_of(self@, is_literal_alive@, i),
            },
    {
        let ghost c = self@;
        let ghost mask = is_literal_alive@;
        let mut count: usize = 0;
        let mut unit: (Literal, usize) = (Literal::Must, 0);
        let ghost mut w1: int = 0;
        let ghost mut w2: int = 0;
        let mut i: usize = 0;
        while i < is_literal_alive.len()
            invariant
                i <= mask.len(),
                mask.len() == c.len(),
                c == self@,
                mask == is_literal_alive@,
                count <= i,
                count == 0 ==> forall|j: int| 0 <= j < i && (#[trigger] mask[j]) ==> c[j] == Literal::Absent,
                count >= 1 ==> 0 <= unit.1 < i && mask[unit.1 as int] && c[unit.1 as int] != Literal::Absent
                    && unit.0 == c[unit.1 as int],
                count == 1 ==> forall|j: int| 0 <= j < i && j != unit.1 && (#[trigger] mask[j]) ==> c[j] == Literal::Absent,
                count >= 2 ==> 0 <= w1 < i && 0 <= w2 < i && w1 != w2
                    && mask[w1] && c[w1] != Literal::Absent && mask[w2] && c[w2] != Literal::Absent,
            decreases mask.len() - i,
        {
            if is_literal_alive[i] {
                match self.disjunction[i] {
                    Literal::MustNot | Literal::Must => {
                        proof {
                            if count >= 1 {
                                w1 = unit.1 as int;
                                w2 = i as int;
                            }
                        }
                        count += 1;
                        unit = (self.disjunction[i], i);
                    }
                    _ => (),
                }
            }
            i += 1;
        }
        if count == 1 {
            return Some(unit);
        }
        proof {
            if count == 0 {
                assert(forall|j: int| !is_unit_of(c, mask, j));
            } else {
                assert forall|j: int| !is_unit_of(c, mask, j) by {
                    if is_unit_of(c, mask, j) {
                        assert(w1 == j || c[w1] == Literal::Absent);
                        assert(w2 == j || c[w2] == Literal::Absent);
                    }
                }
            }
        }
        None
    }

    /// Some trail entry matches this clause's required polarity for its
    /// variable: the clause is already satisfied.
    pub fn is_satisfied(&self, values: &Vec<(Literal, usize)>) -> (r: bool)
        requires
            forall|k: int| 0 <= k < values@.len() ==> (#[trigger] values@[k]).1 < self@.len(),
        ensures
            r == clause_sat_by_trail(self@, values@),
    {
        let mut k: usize = 0;
        while k < values.len()
            invariant
                k <= values@.len(),
                forall|j: int| 0 <= j < values@.len() ==> (#[trigger] values@[j]).1 < self@.len(),
                forall|j: int| 0 <= j < k ==> self@[(#[trigger] values@[j]).1 as int] != values@[j].0,
            decreases values@.len() - k,
        {
            let (lit, item) = values[k];
            if self.disjunction[item] == lit {
                return true;
            }
            k += 1;
        }
        false
    }
}

/// The structured failure of parsing: the token at position `token`
/// within clause `clause` strips to an empty variable name.
#[derive(Clone, Copy, Debug, PartialEq, Eq, Structural)]
pub enum ParseError {
    MalformedToken { clause: usize, token: usize },
}

/// The solver state: the immutable clause store with its variable
/// registry, and the mutable assignment trail with its active-variable
/// mask.  The fields are public so that the specification functions
/// over them stay transparent; the verified methods require the
/// well-formedness predicate `wf` of any state they are handed.
#[derive(Debug)]
pub struct SATSolver {
    pub clauses: Vec<Clause>,
    pub total_literals: usize,
    pub id_to_literal: Vec<String>,
    pub values: Vec<(Literal, usize)>,
    pub literal_mask: Vec<bool>,
}

impl SATSolver {
    /// The clause store as a sequence of literal-state vectors.
    pub open spec fn cnf(self) -> Seq<Seq<Literal>> {
        Seq::new(self.clauses@.len(), |j: int| self.clauses@[j]@)
    }

    /// The number of registered variables.
    pub open spec fn num_vars(self) -> nat {
        self.total_literals as nat
    }

    /// The assignment trail: decided (polarity, variable id) pairs in
    /// decision order.
    pub open spec fn trail(self) -> Seq<(Literal, usize)> {
        self.values@
    }

    /// The active-variable mask: true while a variable is unassigned.
    pub open spec fn mask(self) -> Seq<bool> {
        self.literal_mask@
    }

    /// The registered variable names, indexed by variable id.
    pub open spec fn names(self) -> Seq<Seq<char>> {
        self.id_to_literal.deep_view()
    }

    /// Well-formedness: the solver-state invariant over the clause
    /// store, trail and mask, and a registry of distinct names, one per
    /// variable.
    pub open spec fn wf(self) -> bool {
        &&& state_inv(self.cnf(), self.total_literals as nat, self.trail(), self.mask())
        &&& self.names().len() == self.total_literals
        &&& forall|i1: int, i2: int| 0 <= i1 < i2 < self.names().len()
            ==> self.names()[i1] != self.names()[i2]
    }

    /// Splits a literal token into its polarity and its variable name.
    fn read_literal(literal: &str) -> (r: (Literal, String))
        ensures
            r.0 == token_pol(literal@),
            r.1@ == token_name(literal@),
    {
        let n: usize = literal.unicode_len();
        if n > 0 && literal.get_char(0) == '!' {
            (Literal::MustNot, literal.substring_char(1, n).to_owned())
        } else {
            (Literal::Must, literal.to_owned())
        }
    }

    /// Looks a variable name up in the registry by linear scan.
    fn literal_id(names: &Vec<String>, name: &String) -> (r: Option<usize>)
        ensures
            match r {
                Some(i) => i < names@.len() && names.deep_view()[i as int] == name@,
                None => forall|i: int| 0 <= i < names@.len() ==> names.deep_view()[i] != name@,
            },
    {
        let mut i: usize = 0;
        while i < names.len()
            invariant
                i <= names@.len(),
                forall|i2: int| 0 <= i2 < i ==> names.deep_view()[i2] != name@,
            decreases names@.len() - i,
        {
            if names[i] == *name {
                proof {
                    assert(names.deep_view()[i as int] == names@[i as int]@);
                }
                return Some(i);
            }
            proof {
                assert(names.deep_view()[i as int] == names@[i as int]@);
            }
            i += 1;
        }
        None
    }

    /// Parses a CNF given as clauses of literal tokens.
    ///
    /// Variable ids are assigned in first-seen order over the whole
    /// input, and each clause becomes a full-length state vector whose
    /// entry for a variable is the polarity of the last token of that
    /// clause naming it.  A token whose name is empty after stripping
    /// the negation marker is rejected, identifying the first offending
    /// position; nothing is built in that case.
    pub fn parse_cnf(cnf: Vec<Vec<&str>>) -> (r: Result<Self, ParseError>)
        ensures
            ({
                let cnfv = cnf.deep_view();
                match r {
                    Ok(s) => {
                        &&& s.wf()
                        &&& s.trail() == Seq::<(Literal, usize)>::empty()
                        &&& s.mask().len() == s.num_vars()
                        &&& forall|i: int| 0 <= i < s.mask().len() ==> s.mask()[i]
                        &&& s.names() == registry(cnfv)
                        &&& s.num_vars() == registry(cnfv).len()
                        &&& s.cnf().len() == cnfv.len()
                        &&& forall|j: int| 0 <= j < cnfv.len()
                            ==> #[trigger] s.cnf()[j] == clause_vec(cnfv[j], registry(cnfv))
                        &&& forall|j: int, k: int|
                            0 <= j < cnfv.len() && 0 <= k < cnfv[j].len()
                                ==> !token_malformed(#[trigger] cnfv[j][k])
                    },
                    Err(e) => {
                        match e {
                            ParseError::MalformedToken { clause, token } => {
                                &&& clause < cnfv.len()
                                &&& token < cnfv[clause as int].len()
                                &&& token_malformed(cnfv[clause as int][token as int])
                                &&& forall|j: int, k: int|
                                    0 <= j < clause && 0 <= k < cnfv[j].len()
                                        ==> !token_malformed(#[trigger] cnfv[j][k])
                                &&& forall|k: int| 0 <= k < token
                                    ==> !token_malformed(#[trigger] cnfv[clause as int][k])
                            },
                        }
                    },
                }
            }),
    {
        let ghost cnfv = cnf.deep_view();
        let mut id_to_literal: Vec<String> = Vec::new();

        let mut j: usize = 0;
        while j < cnf.len()
            invariant
                j <= cnf@.len(),
                cnfv == cnf.deep_view(),
                id_to_literal.deep_view() == registry_cnf(Seq::empty(), cnfv.subrange(0, j as int)),
                forall|i1: int, i2: int| 0 <= i1 < i2 < id_to_literal.deep_view().len()
                    ==> id_to_literal.deep_view()[i1] != id_to_literal.deep_view()[i2],
                forall|j2: int, k2: int| 0 <= j2 < j && 0 <= k2 < cnfv[j2].len()
                    ==> id_to_literal.deep_view().contains(token_name(#[trigger] cnfv[j2][k2])),
                forall|j2: int, k2: int| 0 <= j2 < j && 0 <= k2 < cnfv[j2].len()
                    ==> !token_malformed(#[trigger] cnfv[j2][k2]),
            decreases cnf@.len() - j,
        {
            let ghost acc0 = id_to_literal.deep_view();
            let clause_len: usize = cnf[j].len();
            proof {
                assert(cnfv[j as int] == cnf@[j as int].deep_view());
            }
            let mut k: usize = 0;
            while k < clause_len
                invariant
                    j < cnf@.len(),
                    k <= cnfv[j as int].len(),
                    clause_len == cnfv[j as int].len(),
                    cnfv == cnf.deep_view(),
                    acc0 == registry_cnf(Seq::empty(), cnfv.subrange(0, j as int)),
                    id_to_literal.deep_view() == registry_clause(acc0, cnfv[j as int].subrange(0, k as int)),
                    forall|i1: int, i2: int| 0 <= i1 < i2 < id_to_literal.deep_view().len()
                        ==> id_to_literal.deep_view()[i1] != id_to_literal.deep_view()[i2],
                    forall|j2: int, k2: int| 0 <= j2 < j && 0 <= k2 < cnfv[j2].len()
                        ==> id_to_literal.deep_view().contains(token_name(#[trigger] cnfv[j2][k2])),
                    forall|k2: int| 0 <= k2 < k
                        ==> id_to_literal.deep_view().contains(token_name(#[trigger] cnfv[j as int][k2])),
                    forall|j2: int, k2: int| 0 <= j2 < j && 0 <= k2 < cnfv[j2].len()
                        ==> !token_malformed(#[trigger] cnfv[j2][k2]),
                    forall|k2: int| 0 <= k2 < k
                        ==> !token_malformed(#[trigger] cnfv[j as int][k2]),
                decreases clause_len - k,
            {
                let token: &str = cnf[j][k];
                proof {
                    assert(cnfv[j as int] == cnf@[j as int].deep_view());
                    assert(token@ == cnfv[j as int][k as int]);
                }
                let (pol, name) = Self::read_literal(token);
                if name.as_str().is_empty() {
                    return Err(ParseError::MalformedToken { clause: j, token: k });
                }
                let ghost dv = id_to_literal.deep_view();
                proof {
                    lemma_registry_clause_snoc(acc0, cnfv[j as int].subrange(0, k as int), cnfv[j as int][k as int]);
                    assert(cnfv[j as int].subrange(0, k as int + 1)
                        =~= cnfv[j as int].subrange(0, k as int).push(cnfv[j as int][k as int]));
                }
                match Self::literal_id(&id_to_literal, &name) {
                    Some(_) => {
                        proof {
                            assert(dv.contains(name@));
                            assert(insert_name(dv, token_name(cnfv[j as int][k as int])) == dv);
                        }
                    },
                    None => {
                        proof {
                            assert(!dv.contains(name@));
                        }
                        id_to_literal.push(name);
                        proof {
                            let dv2 = id_to_literal.deep_view();
                            assert(dv2 =~= dv.push(token_name(cnfv[j as int][k as int])));
                            assert(dv2[dv.len() as int] == token_name(cnfv[j as int][k as int]));
                            assert(dv2.contains(token_name(cnfv[j as int][k as int])));
                            assert forall|x: Seq<char>| dv.contains(x) implies dv2.contains(x) by {
                                let w = choose|w: int| 0 <= w < dv.len() && dv[w] == x;
                                assert(dv2[w] == x);
                            }
                            assert forall|i1: int, i2: int| 0 <= i1 < i2 < dv2.len()
                                implies dv2[i1] != dv2[i2] by {
                                if i2 == dv.len() && dv2[i1] == dv2[i2] {
                                    assert(0 <= i1 < dv.len() && dv[i1] == name@);
                                    assert(dv.contains(name@));
                                }
                            }
                        }
                    },
                }
                k += 1;
            }
            proof {
                assert(cnfv[j as int].subrange(0, cnfv[j as int].len() as int) =~= cnfv[j as int]);
                lemma_registry_cnf_snoc(Seq::empty(), cnfv.subrange(0, j as int), cnfv[j as int]);
                assert(cnfv.subrange(0, j as int + 1) =~= cnfv.subrange(0, j as int).push(cnfv[j as int]));
            }
            j += 1;
        }
        proof {
            assert(cnfv.subrange(0, cnf@.len() as int) =~= cnfv);
        }
        let ghost names_v = id_to_literal.deep_view();
        let total_literals: usize = id_to_literal.len();

        let mut clauses: Vec<Clause> = Vec::new();
        let mut j: usize = 0;
        while j < cnf.len()
            invariant
                j <= cnf@.len(),
                cnfv == cnf.deep_view(),
                names_v == id_to_literal.deep_view(),
                names_v == registry(cnfv),
                total_literals == names_v.len(),
                clauses@.len() == j,
                forall|j2: int| 0 <= j2 < j
                    ==> (#[trigger] clauses@[j2])@ == clause_vec(cnfv[j2], names_v),
                forall|i1: int, i2: int| 0 <= i1 < i2 < names_v.len()
                    ==> names_v[i1] != names_v[i2],
                forall|j2: int, k2: int| 0 <= j2 < cnfv.len() && 0 <= k2 < cnfv[j2].len()
                    ==> names_v.contains(token_name(#[trigger] cnfv[j2][k2])),
            decreases cnf@.len() - j,
        {
            let mut cls: Vec<Literal> = Vec::new();
            let mut i: usize = 0;
            while i < total_literals
                invariant
                    i <= total_literals,
                    cls@.len() == i,
                    forall|i2: int| 0 <= i2 < i ==> cls@[i2] == Literal::Absent,
                decreases total_literals - i,
            {
                cls.push(Literal::Absent);
                i += 1;
            }
            proof {
                assert(cnfv[j as int] == cnf@[j as int].deep_view());
                assert(cnfv[j as int].subrange(0, 0) =~= Seq::<Seq<char>>::empty());
                assert(forall|i2: int| 0 <= i2 < total_literals
                    ==> cls@[i2] == clause_slot(cnfv[j as int].subrange(0, 0), names_v, i2));
            }
            let clause_len: usize = cnf[j].len();
            let mut k: usize = 0;
            while k < clause_len
                invariant
                    j < cnf@.len(),
                    k <= cnfv[j as int].len(),
                    clause_len == cnfv[j as int].len(),
                    cnfv == cnf.deep_view(),
                    names_v == id_to_literal.deep_view(),
                    total_literals == names_v.len(),
                    cls@.len() == total_literals,
                    forall|i2: int| 0 <= i2 < total_literals
                        ==> cls@[i2] == clause_slot(cnfv[j as int].subrange(0, k as int), names_v, i2),
                    forall|i1: int, i2: int| 0 <= i1 < i2 < names_v.len()
                        ==> names_v[i1] != names_v[i2],
                    forall|j2: int, k2: int| 0 <= j2 < cnfv.len() && 0 <= k2 < cnfv[j2].len()
                        ==> names_v.contains(token_name(#[trigger] cnfv[j2][k2])),
                decreases clause_len - k,
            {
                let token: &str = cnf[j][k];
                proof {
                    assert(cnfv[j as int] == cnf@[j as int].deep_view());
                    assert(token@ == cnfv[j as int][k as int]);
                }
                let (pol, name) = Self::read_literal(token);
                let id_opt = Self::literal_id(&id_to_literal, &name);
                proof {
                    assert(names_v.contains(token_name(cnfv[j as int][k as int])));
                    if id_opt is None {
                        let w = choose|w: int| 0 <= w < names_v.len() && names_v[w] == name@;
                        assert(names_v[w] != name@);
                    }
                }
                let id: usize = id_opt.unwrap();
                let ghost prev = cls@;
                cls[id] = pol;
                proof {
                    let tail = cnfv[j as int].subrange(0, k as int + 1);
                    assert(tail.drop_last() =~= cnfv[j as int].subrange(0, k as int));
                    assert(tail.last() == cnfv[j as int][k as int]);
                    assert forall|i2: int| 0 <= i2 < total_literals
                        implies cls@[i2] == clause_slot(tail, names_v, i2) by {
                        if i2 == id {
                            assert(token_name(tail.last()) == names_v[i2]);
                        } else {
                            if token_name(tail.last()) == names_v[i2] {
                                assert(names_v[id as int] == names_v[i2]);
                                assert(false);
                            }
                            assert(cls@[i2] == prev[i2]);
                        }
                    }
                }
                k += 1;
            }
            proof {
                assert(cnfv[j as int].subrange(0, cnfv[j as int].len() as int) =~= cnfv[j as int]);
                assert(cls@ =~= clause_vec(cnfv[j as int], names_v));
            }
            clauses.push(Clause { disjunction: cls });
            j += 1;
        }

        let mut literal_mask: Vec<bool> = Vec::new();
        let mut i: usize = 0;
        while i < total_literals
            invariant
                i <= total_literals,
                literal_mask@.len() == i,
                forall|i2: int| 0 <= i2 < i ==> literal_mask@[i2],
            decreases total_literals - i,
        {
            literal_mask.push(true);
            i += 1;
        }

        let s = SATSolver {
            clauses,
            total_literals,
            id_to_literal,
            values: Vec::new(),
            literal_mask,
        };
        proof {
            assert(forall|i2: int| !on_trail(s.trail(), i2));
            assert(mask_matches_trail(s.mask(), s.trail()));
            assert(trail_wf(s.trail(), s.total_literals as nat));
            assert(forall|j2: int| 0 <= j2 < s.cnf().len()
                ==> (#[trigger] s.cnf()[j2]).len() == s.total_literals);
            assert(s.trail() =~= Seq::<(Literal, usize)>::empty());
        }
        Ok(s)
    }

    /// Pushes one decision onto the trail and deactivates its variable.
    fn assign(&mut self, pol: Literal, id: usize)
        requires
            old(self).wf(),
            id < old(self).num_vars(),
            old(self).mask()[id as int],
            pol != Literal::Absent,
        ensures
            final(self).wf(),
            final(self).clauses == old(self).clauses,
            final(self).total_literals == old(self).total_literals,
            final(self).id_to_literal == old(self).id_to_literal,
            final(self).trail() == old(self).trail().push((pol, id)),
            final(self).mask() == old(self).mask().update(id as int, false),
            count_true(final(self).mask()) < count_true(old(self).mask()),
    {
        let ghost pre_trail = self.trail();
        let ghost pre_mask = self.mask();
        self.values.push((pol, id));
        self.literal_mask[id] = false;
        proof {
            assert(!on_trail(pre_trail, id as int));
            assert forall|k: int| 0 <= k < pre_trail.len()
                implies (#[trigger] pre_trail[k]).1 != id by {
                if pre_trail[k].1 == id {
                    assert(on_trail(pre_trail, id as int));
                }
            }
            assert forall|i: int| 0 <= i < self.mask().len()
                implies (#[trigger] self.mask()[i]) == !on_trail(self.trail(), i) by {
                if i == id as int {
                    assert(self.trail()[self.trail().len() - 1].1 == id);
                    assert(on_trail(self.trail(), i));
                } else {
                    if on_trail(pre_trail, i) {
                        let k = choose|k: int| 0 <= k < pre_trail.len() && (#[trigger] pre_trail[k]).1 == i;
                        assert(self.trail()[k].1 == i);
                        assert(on_trail(self.trail(), i));
                    }
                    if on_trail(self.trail(), i) {
                        let k = choose|k: int| 0 <= k < self.trail().len() && (#[trigger] self.trail()[k]).1 == i;
                        assert(k < pre_trail.len());
                        assert(on_trail(pre_trail, i));
                    }
                }
            }
            assert(self.mask() =~= pre_mask.update(id as int, false));
            lemma_count_true_lt(self.mask(), pre_mask, id as int);
        }
    }

    /// Pops trail entries, reactivating their variables, until the
    /// trail is back to `target` entries: the backtracking undo.
    fn unwind(&mut self, target: usize)
        requires
            old(self).wf(),
            target <= old(self).trail().len(),
        ensures
            final(self).wf(),
            final(self).clauses == old(self).clauses,
            final(self).total_literals == old(self).total_literals,
            final(self).id_to_literal == old(self).id_to_literal,
            final(self).trail() == old(self).trail().subrange(0, target as int),
    {
        while self.values.len() > target
            invariant
                self.wf(),
                target <= self.trail().len(),
                self.trail().len() <= old(self).trail().len(),
                self.trail() == old(self).trail().subrange(0, self.trail().len() as int),
                self.clauses == old(self).clauses,
                self.total_literals == old(self).total_literals,
                self.id_to_literal == old(self).id_to_literal,
            decreases self.trail().len(),
        {
            let ghost pre = self.trail();
            let e = self.values.pop().unwrap();
            proof {
                assert(pre[pre.len() - 1].1 < self.total_literals);
            }
            self.literal_mask[e.1] = true;
            proof {
                assert(self.trail() =~= pre.drop_last());
                assert forall|i: int| 0 <= i < self.mask().len()
                    implies (#[trigger] self.mask()[i]) == !on_trail(self.trail(), i) by {
                    if i == e.1 as int {
                        if on_trail(self.trail(), i) {
                            let k = choose|k: int| 0 <= k < self.trail().len() && (#[trigger] self.trail()[k]).1 == i;
                            assert(pre[k].1 == i);
                            assert(pre[pre.len() - 1].1 == i);
                        }
                    } else {
                        if on_trail(pre, i) {
                            let k = choose|k: int| 0 <= k < pre.len() && (#[trigger] pre[k]).1 == i;
                            assert(k < pre.len() - 1);
                            assert(self.trail()[k].1 == i);
                            assert(on_trail(self.trail(), i));
                        }
                        if on_trail(self.trail(), i) {
                            let k = choose|k: int| 0 <= k < self.trail().len() && (#[trigger] self.trail()[k]).1 == i;
                            assert(pre[k].1 == i);
                            assert(on_trail(pre, i));
                        }
                    }
                }
                assert(self.trail() =~= old(self).trail().subrange(0, self.trail().len() as int));
            }
        }
    }

    /// Scans the clause store in parse order for a not-yet-satisfied
    /// clause holding a unit literal under the current mask.
    fn find_unit_clause(&self) -> (r: Option<(Literal, usize)>)
        requires
            self.wf(),
        ensures
            match r {
                Some(u) => exists|j: int| 0 <= j < self.cnf().len()
                    && !clause_sat_by_trail(#[trigger] self.cnf()[j], self.trail())
                    && is_unit_of(self.cnf()[j], self.mask(), u.1 as int)
                    && u.0 == self.cnf()[j][u.1 as int]
                    && (forall|j2: int| 0 <= j2 < j
                        ==> clause_sat_by_trail(#[trigger] self.cnf()[j2], self.trail())
                            || (forall|i: int| !is_unit_of(self.cnf()[j2], self.mask(), i))),
                None => forall|j: int| 0 <= j < self.cnf().len()
                    ==> clause_sat_by_trail(#[trigger] self.cnf()[j], self.trail())
                        || (forall|i: int| !is_unit_of(self.cnf()[j], self.mask(), i)),
            },
            r == first_unit(self.cnf(), self.trail(), self.mask(), 0),
    {
        let ghost cs = self.cnf();
        let mut j: usize = 0;
        while j < self.clauses.len()
            invariant
                self.wf(),
                cs == self.cnf(),
                j <= self.clauses@.len(),
                forall|j2: int| 0 <= j2 < j
                    ==> clause_sat_by_trail(#[trigger] self.cnf()[j2], self.trail())
                        || (forall|i: int| !is_unit_of(self.cnf()[j2], self.mask(), i)),
                first_unit(cs, self.trail(), self.mask(), 0) == first_unit(cs, self.trail(), self.mask(), j as int),
            decreases self.clauses@.len() - j,
        {
            proof {
                assert(self.cnf()[j as int] == self.clauses@[j as int]@);
                assert(self.cnf()[j as int].len() == self.num_vars());
            }
            let clause = &self.clauses[j];
            if !clause.is_satisfied(&self.values) {
                if let Some(unit) = clause.find_unit(&self.literal_mask) {
                    proof {
                        assert(has_unit(cs[j as int], self.mask()));
                        let iw = choose|iw: int| is_unit_of(cs[j as int], self.mask(), iw);
                        if iw != unit.1 as int {
                            assert(cs[j as int][unit.1 as int] == Literal::Absent);
                        }
                        assert(iw == unit.1 as int);
                        assert(unit_of(cs[j as int], self.mask()) == unit);
                        assert(first_unit(cs, self.trail(), self.mask(), j as int) == Some(unit));
                    }
                    return Some(unit);
                }
            }
            proof {
                assert(clause_sat_by_trail(cs[j as int], self.trail()) || !has_unit(cs[j as int], self.mask()));
                assert(first_unit(cs, self.trail(), self.mask(), j as int)
                    == first_unit(cs, self.trail(), self.mask(), j as int + 1));
            }
            j += 1;
        }
        None
    }

    /// Looks for the lowest-id active variable that occurs with only
    /// one polarity across the whole clause store.
    fn find_pure_literal(&self) -> (r: Option<(Literal, usize)>)
        requires
            self.wf(),
        ensures
            match r {
                Some(p) => p.1 < self.num_vars() && self.mask()[p.1 as int]
                    && is_pure(self.cnf(), p.1 as int, p.0)
                    && (forall|i: int| 0 <= i < p.1 && self.mask()[i] ==> !is_pure_any(self.cnf(), i)),
                None => forall|i: int| 0 <= i < self.num_vars() && self.mask()[i]
                    ==> !is_pure_any(self.cnf(), i),
            },
            r == lowest_pure(self.cnf(), self.mask(), 0, self.num_vars()),
    {
        let ghost cs = self.cnf();
        let ghost n = self.num_vars();
        let mut i: usize = 0;
        while i < self.total_literals
            invariant
                self.wf(),
                cs == self.cnf(),
                n == self.num_vars(),
                i <= self.total_literals,
                forall|i2: int| 0 <= i2 < i && self.mask()[i2] ==> !is_pure_any(cs, i2),
                lowest_pure(cs, self.mask(), 0, n) == lowest_pure(cs, self.mask(), i as int, n),
            decreases self.total_literals - i,
        {
            if self.literal_mask[i] {
                let mut has_pos = false;
                let mut has_neg = false;
                let mut j: usize = 0;
                while j < self.clauses.len()
                    invariant
                        self.wf(),
                        cs == self.cnf(),
                        i < self.total_literals,
                        j <= self.clauses@.len(),
                        has_pos == exists|j2: int| 0 <= j2 < j && (#[trigger] cs[j2])[i as int] == Literal::Must,
                        has_neg == exists|j2: int| 0 <= j2 < j && (#[trigger] cs[j2])[i as int] == Literal::MustNot,
                    decreases self.clauses@.len() - j,
                {
                    proof {
                        assert(cs[j as int] == self.clauses@[j as int]@);
                        assert(cs[j as int].len() == self.num_vars());
                    }
                    match self.clauses[j].disjunction[i] {
                        Literal::Must => has_pos = true,
                        Literal::MustNot => has_neg = true,
                        _ => (),
                    }
                    j += 1;
                }
                if has_pos && !has_neg {
                    proof {
                        let j2 = choose|j2: int| 0 <= j2 < cs.len() && (#[trigger] cs[j2])[i as int] == Literal::Must;
                        assert(0 <= (i as int) < cs[j2].len());
                        assert(is_pure(cs, i as int, Literal::Must));
                        assert(lowest_pure(cs, self.mask(), i as int, n) == Some((Literal::Must, i)));
                    }
                    return Some((Literal::Must, i));
                }
                if has_neg && !has_pos {
                    proof {
                        let j2 = choose|j2: int| 0 <= j2 < cs.len() && (#[trigger] cs[j2])[i as int] == Literal::MustNot;
                        assert(0 <= (i as int) < cs[j2].len());
                        assert(is_pure(cs, i as int, Literal::MustNot));
                        if is_pure(cs, i as int, Literal::Must) {
                            let j3 = choose|j3: int| 0 <= j3 < cs.len() && 0 <= (i as int) < (#[trigger] cs[j3]).len() && cs[j3][i as int] == Literal::Must;
                            assert(has_pos);
                        }
                        assert(lowest_pure(cs, self.mask(), i as int, n) == Some((Literal::MustNot, i)));
                    }
                    return Some((Literal::MustNot, i));
                }
                proof {
                    if is_pure(cs, i as int, Literal::Must) {
                        let j2 = choose|j2: int| 0 <= j2 < cs.len() && 0 <= (i as int) < (#[trigger] cs[j2]).len() && cs[j2][i as int] == Literal::Must;
                        assert(has_pos);
                        let j3 = choose|j3: int| 0 <= j3 < cs.len() && (#[trigger] cs[j3])[i as int] == Literal::MustNot;
                        assert(0 <= (i as int) < cs[j3].len());
                        assert(false);
                    }
                    if is_pure(cs, i as int, Literal::MustNot) {
                        let j2 = choose|j2: int| 0 <= j2 < cs.len() && 0 <= (i as int) < (#[trigger] cs[j2]).len() && cs[j2][i as int] == Literal::MustNot;
                        assert(has_neg);
                        let j3 = choose|j3: int| 0 <= j3 < cs.len() && (#[trigger] cs[j3])[i as int] == Literal::Must;
                        assert(0 <= (i as int) < cs[j3].len());
                        assert(false);
                    }
                    assert(lowest_pure(cs, self.mask(), i as int, n)
                        == lowest_pure(cs, self.mask(), i as int + 1, n));
                }
            } else {
                proof {
                    assert(lowest_pure(cs, self.mask(), i as int, n)
                        == lowest_pure(cs, self.mask(), i as int + 1, n));
                }
            }
            i += 1;
        }
        None
    }

    /// Some clause is not satisfied by the trail while none of its
    /// literals is still active: the state is contradictory.
    fn is_unsatisfiable(&self) -> (r: bool)
        requires
            self.wf(),
        ensures
            r == exists|j: int| 0 <= j < self.cnf().len()
                && !clause_sat_by_trail(#[trigger] self.cnf()[j], self.trail())
                && clause_dead(self.cnf()[j], self.mask()),
    {
        let mut j: usize = 0;
        while j < self.clauses.len()
            invariant
                self.wf(),
                j <= self.clauses@.len(),
                forall|j2: int| 0 <= j2 < j
                    ==> clause_sat_by_trail(#[trigger] self.cnf()[j2], self.trail())
                        || !clause_dead(self.cnf()[j2], self.mask()),
            decreases self.clauses@.len() - j,
        {
            proof {
                assert(self.cnf()[j as int] == self.clauses@[j as int]@);
                assert(self.cnf()[j as int].len() == self.num_vars());
            }
            let cls = &self.clauses[j];
            if !cls.is_satisfied(&self.values) && cls.is_empty(&self.literal_mask) {
                return true;
            }
            j += 1;
        }
        false
    }

    /// Every clause of the store is satisfied by the current trail.
    fn is_satisfied(&self) -> (r: bool)
        requires
            self.wf(),
        ensures
            r == forall|j: int| 0 <= j < self.cnf().len()
                ==> clause_sat_by_trail(#[trigger] self.cnf()[j], self.trail()),
    {
        let mut j: usize = 0;
        while j < self.clauses.len()
            invariant
                self.wf(),
                j <= self.clauses@.len(),
                forall|j2: int| 0 <= j2 < j
                    ==> clause_sat_by_trail(#[trigger] self.cnf()[j2], self.trail()),
            decreases self.clauses@.len() - j,
        {
            proof {
                assert(self.cnf()[j as int] == self.clauses@[j as int]@);
                assert(self.cnf()[j as int].len() == self.num_vars());
            }
            let cls = &self.clauses[j];
            if !cls.is_satisfied(&self.values) {
                return false;
            }
            j += 1;
        }
        true
    }

    /// Repeats unit propagation until no unit clause remains, checking
    /// for a terminal state after every single assignment.  `Some(b)`
    /// reports a settled verdict; `None` hands the state on with
    /// neither termination check holding.
    #[verifier::loop_isolation(false)]
    #[verifier::rlimit(100)]
    fn propagate_units(&mut self) -> (r: Option<bool>)
        requires
            old(self).wf(),
            !(forall|j: int| 0 <= j < old(self).cnf().len()
                ==> clause_sat_by_trail(#[trigger] old(self).cnf()[j], old(self).trail())),
            !(exists|j: int| 0 <= j < old(self).cnf().len()
                && !clause_sat_by_trail(#[trigger] old(self).cnf()[j], old(self).trail())
                && clause_dead(old(self).cnf()[j], old(self).mask())),
        ensures
            final(self).wf(),
            final(self).clauses == old(self).clauses,
            final(self).total_literals == old(self).total_literals,
            final(self).id_to_literal == old(self).id_to_literal,
            final(self).trail().len() >= old(self).trail().len(),
            final(self).trail().subrange(0, old(self).trail().len() as int) == old(self).trail(),
            forall|i: int| 0 <= i < final(self).mask().len() && (#[trigger] final(self).mask()[i])
                ==> old(self).mask()[i],
            extendable_to_sat(old(self).cnf(), old(self).num_vars(), old(self).trail())
                ==> extendable_to_sat(old(self).cnf(), old(self).num_vars(), final(self).trail()),
            match r {
                Some(b) => {
                    &&& b == extendable_to_sat(old(self).cnf(), old(self).num_vars(), old(self).trail())
                    &&& b == search_main(old(self).cnf(), old(self).num_vars(), old(self).trail(), old(self).mask()).0
                    &&& b ==> (forall|j: int| 0 <= j < final(self).cnf().len()
                        ==> clause_sat_by_trail(#[trigger] final(self).cnf()[j], final(self).trail()))
                        && final(self).trail() == search_main(old(self).cnf(), old(self).num_vars(), old(self).trail(), old(self).mask()).1
                    &&& !b ==> final(self).trail() == old(self).trail()
                        && final(self).mask() == old(self).mask()
                },
                None => {
                    &&& !(forall|j: int| 0 <= j < final(self).cnf().len()
                        ==> clause_sat_by_trail(#[trigger] final(self).cnf()[j], final(self).trail()))
                    &&& !(exists|j: int| 0 <= j < final(self).cnf().len()
                        && !clause_sat_by_trail(#[trigger] final(self).cnf()[j], final(self).trail())
                        && clause_dead(final(self).cnf()[j], final(self).mask()))
                    &&& first_unit(final(self).cnf(), final(self).trail(), final(self).mask(), 0) is None
                    &&& search_main(old(self).cnf(), old(self).num_vars(), old(self).trail(), old(self).mask())
                        == search_pure(final(self).cnf(), final(self).num_vars(), final(self).trail(), final(self).mask())
                },
            },
    {
        let ghost cs = self.cnf();
        let ghost n = self.num_vars();
        let ghost entry_trail = self.trail();
        let ghost entry_mask = self.mask();
        let entry_len: usize = self.values.len();
        loop
            invariant
                self.wf(),
                self.clauses == old(self).clauses,
                self.total_literals == old(self).total_literals,
                self.id_to_literal == old(self).id_to_literal,
                cs == self.cnf(),
                n == self.num_vars(),
                self.trail().len() >= entry_len,
                self.trail().subrange(0, entry_len as int) == entry_trail,
                extendable_to_sat(cs, n, entry_trail) ==> extendable_to_sat(cs, n, self.trail()),
                forall|i: int| 0 <= i < n && (#[trigger] self.mask()[i]) ==> entry_mask[i],
                !(forall|j: int| 0 <= j < cs.len()
                    ==> clause_sat_by_trail(#[trigger] cs[j], self.trail())),
                !(exists|j: int| 0 <= j < cs.len()
                    && !clause_sat_by_trail(#[trigger] cs[j], self.trail())
                    && clause_dead(cs[j], self.mask())),
                search_main(cs, n, entry_trail, entry_mask) == search_main(cs, n, self.trail(), self.mask()),
            decreases count_true(self.mask()),
        {
            match self.find_unit_clause() {
                Some(unit) => {
                    let (pol, id) = unit;
                    let ghost pre_trail = self.trail();
                    let ghost pre_mask = self.mask();
                    proof {
                        let j = choose|j: int| 0 <= j < cs.len()
                            && !clause_sat_by_trail(#[trigger] cs[j], pre_trail)
                            && is_unit_of(cs[j], pre_mask, id as int)
                            && pol == cs[j][id as int];
                        if extendable_to_sat(cs, n, entry_trail) {
                            lemma_unit_step(cs, n, pre_trail, pre_mask, j, id);
                        }
                    }
                    self.assign(pol, id);
                    proof {
                        assert(self.trail().subrange(0, entry_len as int) =~= entry_trail);
                        assert(search_main(cs, n, pre_trail, pre_mask)
                            == search_main(cs, n, self.trail(), self.mask()));
                    }
                    if self.is_satisfied() {
                        proof {
                            lemma_all_sat_extendable(cs, n, self.trail(), self.mask());
                            lemma_extendable_prefix(cs, n, entry_trail, self.trail());
                            assert(search_main(cs, n, self.trail(), self.mask())
                                == (true, self.trail()));
                        }
                        return Some(true);
                    }
                    if self.is_unsatisfiable() {
                        proof {
                            let j = choose|j: int| 0 <= j < cs.len()
                                && !clause_sat_by_trail(#[trigger] cs[j], self.trail())
                                && clause_dead(cs[j], self.mask());
                            lemma_dead_unsat(cs, n, self.trail(), self.mask(), j);
                            assert(search_main(cs, n, self.trail(), self.mask()).0 == false);
                        }
                        self.unwind(entry_len);
                        proof {
                            assert(self.trail() == entry_trail);
                            lemma_mask_determined(entry_trail, self.mask(), entry_mask);
                        }
                        return Some(false);
                    }
                },
                None => { break; },
            }
        }
        proof {
            assert(search_main(cs, n, self.trail(), self.mask())
                == search_pure(cs, n, self.trail(), self.mask()));
        }
        None
    }

    /// Repeats pure-literal elimination until no pure literal remains,
    /// checking for a terminal state after every single assignment.
    /// `Some(b)` reports a settled verdict; `None` hands the state on
    /// with neither termination check holding.
    #[verifier::loop_isolation(false)]
    #[verifier::rlimit(100)]
    fn eliminate_pures(&mut self) -> (r: Option<bool>)
        requires
            old(self).wf(),
            !(forall|j: int| 0 <= j < old(self).cnf().len()
                ==> clause_sat_by_trail(#[trigger] old(self).cnf()[j], old(self).trail())),
            !(exists|j: int| 0 <= j < old(self).cnf().len()
                && !clause_sat_by_trail(#[trigger] old(self).cnf()[j], old(self).trail())
                && clause_dead(old(self).cnf()[j], old(self).mask())),
        ensures
            final(self).wf(),
            final(self).clauses == old(self).clauses,
            final(self).total_literals == old(self).total_literals,
            final(self).id_to_literal == old(self).id_to_literal,
            final(self).trail().len() >= old(self).trail().len(),
            final(self).trail().subrange(0, old(self).trail().len() as int) == old(self).trail(),
            forall|i: int| 0 <= i < final(self).mask().len() && (#[trigger] final(self).mask()[i])
                ==> old(self).mask()[i],
            extendable_to_sat(old(self).cnf(), old(self).num_vars(), old(self).trail())
                ==> extendable_to_sat(old(self).cnf(), old(self).num_vars(), final(self).trail()),
            match r {
                Some(b) => {
                    &&& b == extendable_to_sat(old(self).cnf(), old(self).num_vars(), old(self).trail())
                    &&& b == search_pure(old(self).cnf(), old(self).num_vars(), old(self).trail(), old(self).mask()).0
                    &&& b ==> (forall|j: int| 0 <= j < final(self).cnf().len()
                        ==> clause_sat_by_trail(#[trigger] final(self).cnf()[j], final(self).trail()))
                        && final(self).trail() == search_pure(old(self).cnf(), old(self).num_vars(), old(self).trail(), old(self).mask()).1
                    &&& !b ==> final(self).trail() == old(self).trail()
                        && final(self).mask() == old(self).mask()
                },
                None => {
                    &&& !(forall|j: int| 0 <= j < final(self).cnf().len()
                        ==> clause_sat_by_trail(#[trigger] final(self).cnf()[j], final(self).trail()))
                    &&& !(exists|j: int| 0 <= j < final(self).cnf().len()
                        && !clause_sat_by_trail(#[trigger] final(self).cnf()[j], final(self).trail())
                        && clause_dead(final(self).cnf()[j], final(self).mask()))
                    &&& lowest_pure(final(self).cnf(), final(self).mask(), 0, final(self).num_vars()) is None
                    &&& search_pure(old(self).cnf(), old(self).num_vars(), old(self).trail(), old(self).mask())
                        == search_pure(final(self).cnf(), final(self).num_vars(), final(self).trail(), final(self).mask())
                },
            },
    {
        let ghost cs = self.cnf();
        let ghost n = self.num_vars();
        let ghost entry_trail = self.trail();
        let ghost entry_mask = self.mask();
        let entry_len: usize = self.values.len();
        loop
            invariant
                self.wf(),
                self.clauses == old(self).clauses,
                self.total_literals == old(self).total_literals,
                self.id_to_literal == old(self).id_to_literal,
                cs == self.cnf(),
                n == self.num_vars(),
                self.trail().len() >= entry_len,
                self.trail().subrange(0, entry_len as int) == entry_trail,
                extendable_to_sat(cs, n, entry_trail) ==> extendable_to_sat(cs, n, self.trail()),
                forall|i: int| 0 <= i < n && (#[trigger] self.mask()[i]) ==> entry_mask[i],
                !(forall|j: int| 0 <= j < cs.len()
                    ==> clause_sat_by_trail(#[trigger] cs[j], self.trail())),
                !(exists|j: int| 0 <= j < cs.len()
                    && !clause_sat_by_trail(#[trigger] cs[j], self.trail())
                    && clause_dead(cs[j], self.mask())),
                search_pure(cs, n, entry_trail, entry_mask) == search_pure(cs, n, self.trail(), self.mask()),
            decreases count_true(self.mask()),
        {
            match self.find_pure_literal() {
                Some(pure) => {
                    let (pol, id) = pure;
                    let ghost pre_trail = self.trail();
                    let ghost pre_mask = self.mask();
                    proof {
                        if extendable_to_sat(cs, n, entry_trail) {
                            lemma_pure_step(cs, n, pre_trail, pre_mask, id, pol);
                        }
                    }
                    self.assign(pol, id);
                    proof {
                        assert(self.trail().subrange(0, entry_len as int) =~= entry_trail);
                        assert(search_pure(cs, n, pre_trail, pre_mask)
                            == search_pure(cs, n, self.trail(), self.mask()));
                    }
                    if self.is_satisfied() {
                        proof {
                            lemma_all_sat_extendable(cs, n, self.trail(), self.mask());
                            lemma_extendable_prefix(cs, n, entry_trail, self.trail());
                            assert(search_pure(cs, n, self.trail(), self.mask())
                                == (true, self.trail()));
                        }
                        return Some(true);
                    }
                    if self.is_unsatisfiable() {
                        proof {
                            let j = choose|j: int| 0 <= j < cs.len()
                                && !clause_sat_by_trail(#[trigger] cs[j], self.trail())
                                && clause_dead(cs[j], self.mask());
                            lemma_dead_unsat(cs, n, self.trail(), self.mask(), j);
                            assert(search_pure(cs, n, self.trail(), self.mask()).0 == false);
                        }
                        self.unwind(entry_len);
                        proof {
                            assert(self.trail() == entry_trail);
                            lemma_mask_determined(entry_trail, self.mask(), entry_mask);
                        }
                        return Some(false);
                    }
                },
                None => { break; },
            }
        }
        None
    }

    /// The DPLL search: termination checks, unit propagation,
    /// pure-literal elimination, then branching on the lowest active
    /// variable with backtracking.  Returns whether some total
    /// assignment extending the current trail satisfies the store; on
    /// failure the trail and the mask are restored exactly.
    #[verifier::loop_isolation(false)]
    #[verifier::rlimit(100)]
    fn dpll(&mut self) -> (r: bool)
        requires
            old(self).wf(),
        ensures
            final(self).wf(),
            final(self).clauses == old(self).clauses,
            final(self).total_literals == old(self).total_literals,
            final(self).id_to_literal == old(self).id_to_literal,
            r == extendable_to_sat(old(self).cnf(), old(self).num_vars(), old(self).trail()),
            r == search_main(old(self).cnf(), old(self).num_vars(), old(self).trail(), old(self).mask()).0,
            r ==> final(self).trail().len() >= old(self).trail().len()
                && final(self).trail().subrange(0, old(self).trail().len() as int) == old(self).trail()
                && (forall|j: int| 0 <= j < final(self).cnf().len()
                    ==> clause_sat_by_trail(#[trigger] final(self).cnf()[j], final(self).trail()))
                && final(self).trail() == search_main(old(self).cnf(), old(self).num_vars(), old(self).trail(), old(self).mask()).1,
            !r ==> final(self).trail() == old(self).trail() && final(self).mask() == old(self).mask(),
        decreases count_true(old(self).mask()),
    {
        let ghost cs = self.cnf();
        let ghost n = self.num_vars();
        let ghost entry_trail = self.trail();
        let ghost entry_mask = self.mask();
        let entry_len: usize = self.values.len();

        if self.is_satisfied() {
            proof {
                lemma_all_sat_extendable(cs, n, self.trail(), self.mask());
                assert(search_main(cs, n, self.trail(), self.mask()) == (true, self.trail()));
            }
            return true;
        }
        if self.is_unsatisfiable() {
            proof {
                let j = choose|j: int| 0 <= j < cs.len()
                    && !clause_sat_by_trail(#[trigger] cs[j], self.trail())
                    && clause_dead(cs[j], self.mask());
                lemma_dead_unsat(cs, n, self.trail(), self.mask(), j);
                assert(search_main(cs, n, self.trail(), self.mask()).0 == false);
            }
            return false;
        }

        if let Some(b) = self.propagate_units() {
            return b;
        }

        let ghost mid_trail = self.trail();
        if let Some(b) = self.eliminate_pures() {
            if b {
                proof {
                    lemma_extendable_prefix(cs, n, entry_trail, mid_trail);
                    assert(self.trail().subrange(0, entry_len as int) =~= entry_trail);
                }
                return true;
            }
            self.unwind(entry_len);
            proof {
                assert(self.trail() == entry_trail);
                lemma_mask_determined(entry_trail, self.mask(), entry_mask);
            }
            return false;
        }
        proof {
            assert(self.trail().subrange(0, entry_len as int) =~= entry_trail);
        }

        // Branching: pick the lowest-id active variable.
        let ghost w = {
            let j = choose|j: int| 0 <= j < cs.len()
                && !clause_sat_by_trail(#[trigger] cs[j], self.trail());
            let wi = choose|wi: int| 0 <= wi < self.mask().len()
                && (#[trigger] self.mask()[wi]) && wi < cs[j].len() && cs[j][wi] != Literal::Absent;
            wi
        };
        proof {
            let j = choose|j: int| 0 <= j < cs.len()
                && !clause_sat_by_trail(#[trigger] cs[j], self.trail());
            assert(!clause_dead(cs[j], self.mask()));
            assert(0 <= w < self.mask().len() && self.mask()[w]);
        }
        let mut literal: usize = 0;
        while !self.literal_mask[literal]
            invariant
                literal <= w,
                lowest_active(self.mask(), 0) == lowest_active(self.mask(), literal as int),
            decreases w - literal,
        {
            literal += 1;
        }

        let ghost trail_b = self.trail();
        let ghost mask_b = self.mask();
        proof {
            assert(!on_trail(trail_b, literal as int));
            assert(literal as int == lowest_active(mask_b, 0));
        }
        let ghost r1m = search_main(cs, n, trail_b.push((Literal::Must, literal)), mask_b.update(literal as int, false));
        let ghost r2m = search_main(cs, n, trail_b.push((Literal::MustNot, literal)), mask_b.update(literal as int, false));
        proof {
            lemma_state_inv_assign(cs, n, trail_b, mask_b, Literal::Must, literal);
            lemma_state_inv_assign(cs, n, trail_b, mask_b, Literal::MustNot, literal);
            assert(search_pure(cs, n, trail_b, mask_b) == (if r1m.0 { r1m } else { r2m }));
        }
        self.assign(Literal::Must, literal);
        proof {
            lemma_count_true_lt(self.mask(), entry_mask, literal as int);
        }
        let r1 = self.dpll();
        if r1 {
            proof {
                assert((trail_b.push((Literal::Must, literal))).subrange(0, entry_len as int) =~= entry_trail);
                lemma_extendable_prefix(cs, n, entry_trail, trail_b.push((Literal::Must, literal)));
                assert(self.trail().subrange(0, entry_len as int) =~= entry_trail);
                assert(search_pure(cs, n, trail_b, mask_b) == r1m);
            }
            return true;
        }
        // First branch failed; its call restored the trail and the mask.
        let _popped = self.values.pop().unwrap();
        self.literal_mask[literal] = true;
        proof {
            assert(self.trail() =~= trail_b);
            assert(self.mask() =~= mask_b);
        }
        self.assign(Literal::MustNot, literal);
        proof {
            lemma_count_true_lt(self.mask(), entry_mask, literal as int);
        }
        let r2 = self.dpll();
        if r2 {
            proof {
                assert((trail_b.push((Literal::MustNot, literal))).subrange(0, entry_len as int) =~= entry_trail);
                lemma_extendable_prefix(cs, n, entry_trail, trail_b.push((Literal::MustNot, literal)));
                assert(self.trail().subrange(0, entry_len as int) =~= entry_trail);
                assert(search_pure(cs, n, trail_b, mask_b) == r2m);
            }
            return true;
        }
        proof {
            lemma_branch(cs, n, trail_b, literal);
            assert(search_pure(cs, n, trail_b, mask_b).0 == false);
        }
        self.unwind(entry_len);
        proof {
            assert((trail_b.push((Literal::MustNot, literal))).subrange(0, entry_len as int) =~= entry_trail);
            assert(self.trail() == entry_trail);
            lemma_mask_determined(entry_trail, self.mask(), entry_mask);
        }
        false
    }


    /// Runs the search and, when satisfiable, renders the trail as
    /// signed variable names in decision order.  Unsatisfiable inputs
    /// yield `(false, None)` with the state unchanged.  Both the
    /// verdict and the rendered assignment equal what the functional
    /// model `search_main` computes from the starting state, so equal
    /// states solve to identical output.
    #[verifier::loop_isolation(false)]
    pub fn solve(&mut self) -> (r: (bool, Option<Vec<String>>))
        requires
            old(self).wf(),
        ensures
            final(self).wf(),
            final(self).cnf() == old(self).cnf(),
            final(self).num_vars() == old(self).num_vars(),
            final(self).names() == old(self).names(),
            r.0 == extendable_to_sat(old(self).cnf(), old(self).num_vars(), old(self).trail()),
            old(self).trail().len() == 0
                ==> r.0 == cnf_satisfiable(old(self).cnf(), old(self).num_vars()),
            !r.0 ==> r.1 is None && final(self).trail() == old(self).trail()
                && final(self).mask() == old(self).mask(),
            r.0 ==> (match r.1 {
                Some(sol) => sol.deep_view() == format_trail(final(self).trail(), final(self).names()),
                None => false,
            }),
            r.0 == search_main(old(self).cnf(), old(self).num_vars(), old(self).trail(), old(self).mask()).0,
            r.0 ==> final(self).trail()
                == search_main(old(self).cnf(), old(self).num_vars(), old(self).trail(), old(self).mask()).1,
            r.0 ==> final(self).trail().len() >= old(self).trail().len()
                && final(self).trail().subrange(0, old(self).trail().len() as int) == old(self).trail()
                && (forall|j: int| 0 <= j < final(self).cnf().len()
                    ==> clause_sat_by_trail(#[trigger] final(self).cnf()[j], final(self).trail())),
    {
        proof {
            if old(self).trail().len() == 0 {
                assert(old(self).trail() =~= Seq::<(Literal, usize)>::empty());
                lemma_empty_trail_extendable(old(self).cnf(), old(self).num_vars());
            }
        }
        let satisfiable = self.dpll();
        if !satisfiable {
            return (false, None);
        }
        let mut solution: Vec<String> = Vec::new();
        let mut k: usize = 0;
        while k < self.values.len()
            invariant
                k <= self.trail().len(),
                solution@.len() == k,
                forall|k2: int| 0 <= k2 < k
                    ==> solution.deep_view()[k2]
                        == format_entry(self.trail()[k2].0, self.names()[self.trail()[k2].1 as int]),
            decreases self.trail().len() - k,
        {
            let ghost dv = solution.deep_view();
            let (lit, lit_id) = self.values[k];
            let name = self.id_to_literal[lit_id].clone();
            match lit {
                Literal::Must => {
                    solution.push(name);
                    proof {
                        assert(solution.deep_view() =~= dv.push(self.names()[self.trail()[k as int].1 as int]));
                    }
                },
                Literal::MustNot => {
                    let mut prefixed = "!".to_owned();
                    prefixed.append(name.as_str());
                    proof {
                        reveal_strlit("!");
                        assert("!"@ =~= seq!['!']);
                    }
                    solution.push(prefixed);
                    proof {
                        assert(solution.deep_view()
                            =~= dv.push(seq!['!'] + self.names()[self.trail()[k as int].1 as int]));
                    }
                },
                Literal::Absent => {
                    proof {
                        assert(self.trail()[k as int].0 != Literal::Absent);
                        assert(false);
                    }
                },
            }
            k += 1;
        }
        proof {
            assert(solution.deep_view() =~= format_trail(self.trail(), self.names()));
        }
        (true, Some(solution))
    }
}

/// Determinism of the search: two well-formed solvers over the same
/// clause store, names and trail, with every variable still active,
/// stand at the same point of the search, and `solve` pins its verdict
/// and its rendered assignment to `search_main` — so both solvers
/// solve to identical output.
pub proof fn lemma_fresh_solvers_agree(s1: SATSolver, s2: SATSolver)
    requires
        s1.wf(),
        s2.wf(),
        s1.cnf() == s2.cnf(),
        s1.num_vars() == s2.num_vars(),
        s1.names() == s2.names(),
        s1.trail() == s2.trail(),
        forall|i: int| 0 <= i < s1.mask().len() ==> s1.mask()[i],
        forall|i: int| 0 <= i < s2.mask().len() ==> s2.mask()[i],
    ensures
        search_main(s1.cnf(), s1.num_vars(), s1.trail(), s1.mask())
            == search_main(s2.cnf(), s2.num_vars(), s2.trail(), s2.mask()),
        format_trail(
            search_main(s1.cnf(), s1.num_vars(), s1.trail(), s1.mask()).1,
            s1.names(),
        ) == format_trail(
            search_main(s2.cnf(), s2.num_vars(), s2.trail(), s2.mask()).1,
            s2.names(),
        ),
{
    assert(s1.mask() =~= s2.mask());
}

} // verus!
