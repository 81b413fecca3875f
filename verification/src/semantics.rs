//! The mathematical model of the solver: how a clause is encoded over
//! the variable registry, what a truth assignment is, and what the trail
//! and the active-variable mask mean.  The solver's contracts are stated
//! over these functions, and the laws about the search are proved here.

use vstd::prelude::*;

verus! {

/// The state of one variable within one clause: the clause requires the
/// variable to be true (`Must`), requires it to be false (`MustNot`), or
/// does not mention it (`Absent`).
#[derive(Clone, Copy, Debug, PartialEq, Eq, Structural)]
pub enum Literal {
    Must,
    MustNot,
    Absent,
}

/// The polarity opposite to `pol`; `Absent` has no opposite.
pub open spec fn negate(pol: Literal) -> Literal {
    match pol {
        Literal::Must => Literal::MustNot,
        Literal::MustNot => Literal::Must,
        Literal::Absent => Literal::Absent,
    }
}

// ---------------------------------------------------------------------------
// Literal tokens
// ---------------------------------------------------------------------------

/// A token is malformed when stripping the negation marker leaves an
/// empty variable name.
pub open spec fn token_malformed(t: Seq<char>) -> bool {
    token_name(t).len() == 0
}

/// The polarity a token stands for: `!name` is a negative occurrence.
pub open spec fn token_pol(t: Seq<char>) -> Literal {
    if t.len() > 0 && t[0] == '!' {
        Literal::MustNot
    } else {
        Literal::Must
    }
}

/// The variable name of a token, with the negation marker stripped.
pub open spec fn token_name(t: Seq<char>) -> Seq<char> {
    if t.len() > 0 && t[0] == '!' {
        t.subrange(1, t.len() as int)
    } else {
        t
    }
}

// ---------------------------------------------------------------------------
// The variable registry: names in first-seen order
// ---------------------------------------------------------------------------

/// Appends `name` to the registry unless it is already present.
pub open spec fn insert_name(acc: Seq<Seq<char>>, name: Seq<char>) -> Seq<Seq<char>> {
    if acc.contains(name) {
        acc
    } else {
        acc.push(name)
    }
}

/// Folds the tokens of one clause into the registry, left to right.
pub open spec fn registry_clause(acc: Seq<Seq<char>>, clause: Seq<Seq<char>>) -> Seq<Seq<char>>
    decreases clause.len(),
{
    if clause.len() == 0 {
        acc
    } else {
        registry_clause(insert_name(acc, token_name(clause[0])), clause.subrange(1, clause.len() as int))
    }
}

/// Folds a whole clause collection into the registry, clause by clause.
pub open spec fn registry_cnf(acc: Seq<Seq<char>>, cnf: Seq<Seq<Seq<char>>>) -> Seq<Seq<char>>
    decreases cnf.len(),
{
    if cnf.len() == 0 {
        acc
    } else {
        registry_cnf(registry_clause(acc, cnf[0]), cnf.subrange(1, cnf.len() as int))
    }
}

/// The registry built from a token CNF: every distinct variable name, in
/// first-seen order over the whole input.
pub open spec fn registry(cnf: Seq<Seq<Seq<char>>>) -> Seq<Seq<char>> {
    registry_cnf(Seq::empty(), cnf)
}

/// The entry a parsed clause holds for variable `i`: the polarity of the
/// last token of the clause naming `names[i]`, or `Absent` when no token
/// does.
pub open spec fn clause_slot(clause: Seq<Seq<char>>, names: Seq<Seq<char>>, i: int) -> Literal
    decreases clause.len(),
{
    if clause.len() == 0 {
        Literal::Absent
    } else if 0 <= i < names.len() && token_name(clause.last()) == names[i] {
        token_pol(clause.last())
    } else {
        clause_slot(clause.drop_last(), names, i)
    }
}

/// The full-length state vector a clause parses to over the registry.
pub open spec fn clause_vec(clause: Seq<Seq<char>>, names: Seq<Seq<char>>) -> Seq<Literal> {
    Seq::new(names.len(), |i: int| clause_slot(clause, names, i))
}

/// Folding one more token extends the clause fold by one insertion.
pub proof fn lemma_registry_clause_snoc(acc: Seq<Seq<char>>, clause: Seq<Seq<char>>, t: Seq<char>)
    ensures
        registry_clause(acc, clause.push(t)) == insert_name(registry_clause(acc, clause), token_name(t)),
    decreases clause.len(),
{
    if clause.len() == 0 {
        assert(clause.push(t)[0] == t);
        assert(clause.push(t).subrange(1, 1) =~= Seq::<Seq<char>>::empty());
        assert(registry_clause(acc, clause.push(t))
            == registry_clause(insert_name(acc, token_name(t)), clause.push(t).subrange(1, 1)));
        assert(registry_clause(insert_name(acc, token_name(t)), Seq::<Seq<char>>::empty())
            == insert_name(acc, token_name(t)));
    } else {
        assert(clause.push(t)[0] == clause[0]);
        assert(clause.push(t).subrange(1, clause.len() as int + 1) =~= clause.subrange(1, clause.len() as int).push(t));
        assert(registry_clause(acc, clause.push(t))
            == registry_clause(insert_name(acc, token_name(clause[0])), clause.subrange(1, clause.len() as int).push(t)));
        lemma_registry_clause_snoc(insert_name(acc, token_name(clause[0])), clause.subrange(1, clause.len() as int), t);
        assert(registry_clause(acc, clause)
            == registry_clause(insert_name(acc, token_name(clause[0])), clause.subrange(1, clause.len() as int)));
    }
}

/// Folding one more clause extends the CNF fold by that clause's fold.
pub proof fn lemma_registry_cnf_snoc(acc: Seq<Seq<char>>, cnf: Seq<Seq<Seq<char>>>, c: Seq<Seq<char>>)
    ensures
        registry_cnf(acc, cnf.push(c)) == registry_clause(registry_cnf(acc, cnf), c),
    decreases cnf.len(),
{
    if cnf.len() == 0 {
        assert(cnf.push(c)[0] == c);
        assert(cnf.push(c).subrange(1, 1) =~= Seq::<Seq<Seq<char>>>::empty());
        assert(registry_cnf(acc, cnf.push(c))
            == registry_cnf(registry_clause(acc, c), cnf.push(c).subrange(1, 1)));
        assert(registry_cnf(registry_clause(acc, c), Seq::<Seq<Seq<char>>>::empty())
            == registry_clause(acc, c));
    } else {
        assert(cnf.push(c)[0] == cnf[0]);
        assert(cnf.push(c).subrange(1, cnf.len() as int + 1) =~= cnf.subrange(1, cnf.len() as int).push(c));
        assert(registry_cnf(acc, cnf.push(c))
            == registry_cnf(registry_clause(acc, cnf[0]), cnf.subrange(1, cnf.len() as int).push(c)));
        lemma_registry_cnf_snoc(registry_clause(acc, cnf[0]), cnf.subrange(1, cnf.len() as int), c);
        assert(registry_cnf(acc, cnf)
            == registry_cnf(registry_clause(acc, cnf[0]), cnf.subrange(1, cnf.len() as int)));
    }
}

// ---------------------------------------------------------------------------
// Truth assignments
// ---------------------------------------------------------------------------

/// Whether the value `v` of a variable makes a clause entry `l` true.
pub open spec fn lit_matches(l: Literal, v: bool) -> bool {
    (l == Literal::Must && v) || (l == Literal::MustNot && !v)
}

/// A total assignment `v` satisfies a clause when some entry matches.
pub open spec fn clause_sat_by(v: Seq<bool>, c: Seq<Literal>) -> bool {
    exists|i: int| 0 <= i < c.len() && i < v.len() && lit_matches(c[i], v[i])
}

/// A total assignment satisfies a CNF when it satisfies every clause.
pub open spec fn cnf_sat_by(v: Seq<bool>, cs: Seq<Seq<Literal>>) -> bool {
    forall|j: int| 0 <= j < cs.len() ==> clause_sat_by(v, #[trigger] cs[j])
}

/// Truth-table satisfiability of a CNF over `n` variables.
pub open spec fn cnf_satisfiable(cs: Seq<Seq<Literal>>, n: nat) -> bool {
    exists|v: Seq<bool>| v.len() == n && cnf_sat_by(v, cs)
}

// ---------------------------------------------------------------------------
// The trail and the active-variable mask
// ---------------------------------------------------------------------------

/// Trail entries carry a real polarity and a variable id below `n`, and
/// no variable appears twice.
pub open spec fn trail_wf(trail: Seq<(Literal, usize)>, n: nat) -> bool {
    &&& forall|k: int| 0 <= k < trail.len()
        ==> (#[trigger] trail[k]).1 < n && trail[k].0 != Literal::Absent
    &&& forall|k1: int, k2: int| 0 <= k1 < k2 < trail.len()
        ==> (#[trigger] trail[k1]).1 != (#[trigger] trail[k2]).1
}

/// Whether variable `i` has an entry on the trail.
pub open spec fn on_trail(trail: Seq<(Literal, usize)>, i: int) -> bool {
    exists|k: int| 0 <= k < trail.len() && (#[trigger] trail[k]).1 == i
}

/// The mask and the trail agree: a variable is inactive exactly when it
/// is on the trail.
pub open spec fn mask_matches_trail(mask: Seq<bool>, trail: Seq<(Literal, usize)>) -> bool {
    forall|i: int| 0 <= i < mask.len() ==> (#[trigger] mask[i] == !on_trail(trail, i))
}

/// A total assignment agrees with every decision on the trail.
pub open spec fn consistent_with(v: Seq<bool>, trail: Seq<(Literal, usize)>) -> bool {
    forall|k: int| 0 <= k < trail.len()
        ==> (#[trigger] trail[k]).1 < v.len() && v[trail[k].1 as int] == (trail[k].0 == Literal::Must)
}

/// Some total assignment extends the trail and satisfies the CNF.  The
/// search decides exactly this question.
pub open spec fn extendable_to_sat(cs: Seq<Seq<Literal>>, n: nat, trail: Seq<(Literal, usize)>) -> bool {
    exists|v: Seq<bool>| v.len() == n && consistent_with(v, trail) && cnf_sat_by(v, cs)
}

/// The whole solver-state invariant: mask length, clause lengths, a
/// well-formed trail, and mask/trail agreement.
pub open spec fn state_inv(cs: Seq<Seq<Literal>>, n: nat, trail: Seq<(Literal, usize)>, mask: Seq<bool>) -> bool {
    &&& mask.len() == n
    &&& forall|j: int| 0 <= j < cs.len() ==> (#[trigger] cs[j]).len() == n
    &&& trail_wf(trail, n)
    &&& mask_matches_trail(mask, trail)
}

// ---------------------------------------------------------------------------
// Clause queries against the trail and the mask
// ---------------------------------------------------------------------------

/// The clause has a trail entry matching one of its required polarities.
pub open spec fn clause_sat_by_trail(c: Seq<Literal>, trail: Seq<(Literal, usize)>) -> bool {
    exists|k: int| 0 <= k < trail.len()
        && (#[trigger] trail[k]).1 < c.len() && c[trail[k].1 as int] == trail[k].0
}

/// Restricted to active variables, the clause has no literal left.
pub open spec fn clause_dead(c: Seq<Literal>, mask: Seq<bool>) -> bool {
    forall|i: int| 0 <= i < mask.len() && (#[trigger] mask[i]) && i < c.len()
        ==> c[i] == Literal::Absent
}

/// Variable `i` is the single active variable the clause still mentions.
pub open spec fn is_unit_of(c: Seq<Literal>, mask: Seq<bool>, i: int) -> bool {
    &&& 0 <= i < c.len()
    &&& i < mask.len()
    &&& mask[i]
    &&& c[i] != Literal::Absent
    &&& forall|j: int| 0 <= j < c.len() && j < mask.len() && (#[trigger] mask[j]) && j != i
        ==> c[j] == Literal::Absent
}

/// Variable `i` occurs with polarity `pol` somewhere and never with the
/// opposite polarity, across all clauses.
pub open spec fn is_pure(cs: Seq<Seq<Literal>>, i: int, pol: Literal) -> bool {
    &&& pol != Literal::Absent
    &&& exists|j: int| 0 <= j < cs.len() && 0 <= i < (#[trigger] cs[j]).len() && cs[j][i] == pol
    &&& forall|j: int| 0 <= j < cs.len() && 0 <= i < (#[trigger] cs[j]).len()
        ==> cs[j][i] != negate(pol)
}

/// Variable `i` is pure with one polarity or the other.
pub open spec fn is_pure_any(cs: Seq<Seq<Literal>>, i: int) -> bool {
    is_pure(cs, i, Literal::Must) || is_pure(cs, i, Literal::MustNot)
}

// ---------------------------------------------------------------------------
// Rendering the trail
// ---------------------------------------------------------------------------

/// One trail entry rendered as a signed name: the negation marker is
/// prepended for a negative decision.
pub open spec fn format_entry(pol: Literal, name: Seq<char>) -> Seq<char> {
    if pol == Literal::MustNot {
        seq!['!'] + name
    } else {
        name
    }
}

/// The whole trail rendered in decision order.
pub open spec fn format_trail(trail: Seq<(Literal, usize)>, names: Seq<Seq<char>>) -> Seq<Seq<char>> {
    Seq::new(trail.len(), |k: int| format_entry(trail[k].0, names[trail[k].1 as int]))
}

// ---------------------------------------------------------------------------
// Laws of the search
// ---------------------------------------------------------------------------

/// The total assignment the trail induces: the decided polarity for a
/// variable on the trail, `true` for one never decided.
pub open spec fn trail_value(trail: Seq<(Literal, usize)>, i: int) -> bool {
    if on_trail(trail, i) {
        trail[choose|k: int| 0 <= k < trail.len() && (#[trigger] trail[k]).1 == i].0 == Literal::Must
    } else {
        true
    }
}

/// A state whose every clause is satisfied by the trail extends to a
/// satisfying total assignment: the `Satisfied` verdict is sound.
pub proof fn lemma_all_sat_extendable(cs: Seq<Seq<Literal>>, n: nat, trail: Seq<(Literal, usize)>, mask: Seq<bool>)
    requires
        state_inv(cs, n, trail, mask),
        forall|j: int| 0 <= j < cs.len() ==> clause_sat_by_trail(#[trigger] cs[j], trail),
    ensures
        extendable_to_sat(cs, n, trail),
{
    let v = Seq::new(n, |i: int| trail_value(trail, i));
    assert forall|k: int| 0 <= k < trail.len()
        implies (#[trigger] trail[k]).1 < v.len() && v[trail[k].1 as int] == (trail[k].0 == Literal::Must) by {
        let i = trail[k].1 as int;
        assert(on_trail(trail, i));
        let k2 = choose|k2: int| 0 <= k2 < trail.len() && (#[trigger] trail[k2]).1 == i;
        assert(k2 == k);
    }
    assert(consistent_with(v, trail));
    assert forall|j: int| 0 <= j < cs.len() implies clause_sat_by(v, #[trigger] cs[j]) by {
        let k = choose|k: int| 0 <= k < trail.len()
            && (#[trigger] trail[k]).1 < cs[j].len() && cs[j][trail[k].1 as int] == trail[k].0;
        let i = trail[k].1 as int;
        assert(v[i] == (trail[k].0 == Literal::Must));
        assert(lit_matches(cs[j][i], v[i]));
    }
    assert(v.len() == n && consistent_with(v, trail) && cnf_sat_by(v, cs));
}

/// A clause not satisfied by the trail and with no active literal left
/// rules out every extension: the `Unsatisfiable` verdict is sound.
pub proof fn lemma_dead_unsat(cs: Seq<Seq<Literal>>, n: nat, trail: Seq<(Literal, usize)>, mask: Seq<bool>, j: int)
    requires
        state_inv(cs, n, trail, mask),
        0 <= j < cs.len(),
        !clause_sat_by_trail(cs[j], trail),
        clause_dead(cs[j], mask),
    ensures
        !extendable_to_sat(cs, n, trail),
{
    if extendable_to_sat(cs, n, trail) {
        let v = choose|v: Seq<bool>| v.len() == n && consistent_with(v, trail) && cnf_sat_by(v, cs);
        assert(clause_sat_by(v, cs[j]));
        let i = choose|i: int| 0 <= i < cs[j].len() && i < v.len() && lit_matches(cs[j][i], v[i]);
        assert(cs[j][i] != Literal::Absent);
        assert(!mask[i]);
        assert(on_trail(trail, i));
        let k = choose|k: int| 0 <= k < trail.len() && (#[trigger] trail[k]).1 == i;
        assert(v[i] == (trail[k].0 == Literal::Must));
        assert(cs[j][i] != trail[k].0);
        assert(!lit_matches(cs[j][i], v[i]));
    }
}

/// Propagating a unit literal loses no satisfying extension: every
/// extension already decides the forced variable the forced way.
pub proof fn lemma_unit_step(cs: Seq<Seq<Literal>>, n: nat, trail: Seq<(Literal, usize)>, mask: Seq<bool>, j: int, i: usize)
    requires
        state_inv(cs, n, trail, mask),
        0 <= j < cs.len(),
        !clause_sat_by_trail(cs[j], trail),
        is_unit_of(cs[j], mask, i as int),
        extendable_to_sat(cs, n, trail),
    ensures
        extendable_to_sat(cs, n, trail.push((cs[j][i as int], i))),
{
    let v = choose|v: Seq<bool>| v.len() == n && consistent_with(v, trail) && cnf_sat_by(v, cs);
    assert(clause_sat_by(v, cs[j]));
    let i2 = choose|i2: int| 0 <= i2 < cs[j].len() && i2 < v.len() && lit_matches(cs[j][i2], v[i2]);
    if i2 != i as int {
        assert(cs[j][i2] != Literal::Absent);
        assert(!mask[i2]);
        assert(on_trail(trail, i2));
        let k = choose|k: int| 0 <= k < trail.len() && (#[trigger] trail[k]).1 == i2;
        assert(v[i2] == (trail[k].0 == Literal::Must));
        assert(cs[j][i2] != trail[k].0);
        assert(!lit_matches(cs[j][i2], v[i2]));
    }
    assert(v[i as int] == (cs[j][i as int] == Literal::Must));
    let t2 = trail.push((cs[j][i as int], i));
    assert forall|k: int| 0 <= k < t2.len()
        implies (#[trigger] t2[k]).1 < v.len() && v[t2[k].1 as int] == (t2[k].0 == Literal::Must) by {
        if k < trail.len() {
            assert(t2[k] == trail[k]);
        }
    }
    assert(consistent_with(v, t2));
}

/// Assigning a pure literal its one polarity loses no satisfying
/// extension: flipping that variable can only help.
pub proof fn lemma_pure_step(cs: Seq<Seq<Literal>>, n: nat, trail: Seq<(Literal, usize)>, mask: Seq<bool>, i: usize, pol: Literal)
    requires
        state_inv(cs, n, trail, mask),
        i < n,
        mask[i as int],
        is_pure(cs, i as int, pol),
        extendable_to_sat(cs, n, trail),
    ensures
        extendable_to_sat(cs, n, trail.push((pol, i))),
{
    let v = choose|v: Seq<bool>| v.len() == n && consistent_with(v, trail) && cnf_sat_by(v, cs);
    let v2 = v.update(i as int, pol == Literal::Must);
    let t2 = trail.push((pol, i));
    assert forall|k: int| 0 <= k < t2.len()
        implies (#[trigger] t2[k]).1 < v2.len() && v2[t2[k].1 as int] == (t2[k].0 == Literal::Must) by {
        if k < trail.len() {
            assert(t2[k] == trail[k]);
            assert(!on_trail(trail, i as int));
            assert(trail[k].1 != i);
        }
    }
    assert forall|j: int| 0 <= j < cs.len() implies clause_sat_by(v2, #[trigger] cs[j]) by {
        let i2 = choose|i2: int| 0 <= i2 < cs[j].len() && i2 < v.len() && lit_matches(cs[j][i2], v[i2]);
        if i2 == i as int {
            assert(cs[j][i as int] != negate(pol));
            assert(cs[j][i as int] != Literal::Absent);
            assert(cs[j][i as int] == pol);
            assert(lit_matches(cs[j][i2], v2[i2]));
        } else {
            assert(v2[i2] == v[i2]);
            assert(lit_matches(cs[j][i2], v2[i2]));
        }
    }
    assert(v2.len() == n && consistent_with(v2, t2) && cnf_sat_by(v2, cs));
}

/// When neither polarity of a branch variable leads to a satisfying
/// extension, none exists: case splitting is exhaustive.
pub proof fn lemma_branch(cs: Seq<Seq<Literal>>, n: nat, trail: Seq<(Literal, usize)>, i: usize)
    requires
        i < n,
        !on_trail(trail, i as int),
        !extendable_to_sat(cs, n, trail.push((Literal::Must, i))),
        !extendable_to_sat(cs, n, trail.push((Literal::MustNot, i))),
    ensures
        !extendable_to_sat(cs, n, trail),
{
    if extendable_to_sat(cs, n, trail) {
        let v = choose|v: Seq<bool>| v.len() == n && consistent_with(v, trail) && cnf_sat_by(v, cs);
        let pol = if v[i as int] { Literal::Must } else { Literal::MustNot };
        let t2 = trail.push((pol, i));
        assert forall|k: int| 0 <= k < t2.len()
            implies (#[trigger] t2[k]).1 < v.len() && v[t2[k].1 as int] == (t2[k].0 == Literal::Must) by {
            if k < trail.len() {
                assert(t2[k] == trail[k]);
            }
        }
        assert(consistent_with(v, t2));
        assert(extendable_to_sat(cs, n, t2));
    }
}

/// Whatever extends a longer trail extends each of its prefixes.
pub proof fn lemma_extendable_prefix(cs: Seq<Seq<Literal>>, n: nat, t1: Seq<(Literal, usize)>, t2: Seq<(Literal, usize)>)
    requires
        t1.len() <= t2.len(),
        t2.subrange(0, t1.len() as int) == t1,
        extendable_to_sat(cs, n, t2),
    ensures
        extendable_to_sat(cs, n, t1),
{
    let v = choose|v: Seq<bool>| v.len() == n && consistent_with(v, t2) && cnf_sat_by(v, cs);
    assert forall|k: int| 0 <= k < t1.len()
        implies (#[trigger] t1[k]).1 < v.len() && v[t1[k].1 as int] == (t1[k].0 == Literal::Must) by {
        assert(t1[k] == t2.subrange(0, t1.len() as int)[k]);
        assert(t1[k] == t2[k]);
    }
    assert(consistent_with(v, t1));
}

/// Soundness of the rendered assignment: every clause that the trail
/// satisfies has some literal whose rendering — its variable's name,
/// marker-prefixed when negative — stands in the rendered assignment.
pub proof fn lemma_solution_covers_clause(
    cs: Seq<Seq<Literal>>,
    trail: Seq<(Literal, usize)>,
    names: Seq<Seq<char>>,
    solution: Seq<Seq<char>>,
    j: int,
)
    requires
        solution == format_trail(trail, names),
        forall|k: int| 0 <= k < trail.len()
            ==> (#[trigger] trail[k]).1 < names.len() && trail[k].0 != Literal::Absent,
        0 <= j < cs.len(),
        clause_sat_by_trail(cs[j], trail),
    ensures
        exists|i: int| 0 <= i < cs[j].len() && #[trigger] cs[j][i] != Literal::Absent
            && solution.contains(format_entry(cs[j][i], names[i])),
{
    let k = choose|k: int| 0 <= k < trail.len()
        && (#[trigger] trail[k]).1 < cs[j].len() && cs[j][trail[k].1 as int] == trail[k].0;
    let i = trail[k].1 as int;
    assert(solution[k] == format_entry(cs[j][i], names[i]));
    assert(solution.contains(format_entry(cs[j][i], names[i])));
    assert(cs[j][i] != Literal::Absent);
}

/// The trail determines the mask: two masks agreeing with one trail are
/// equal.
pub proof fn lemma_mask_determined(trail: Seq<(Literal, usize)>, m1: Seq<bool>, m2: Seq<bool>)
    requires
        m1.len() == m2.len(),
        mask_matches_trail(m1, trail),
        mask_matches_trail(m2, trail),
    ensures
        m1 == m2,
{
    assert(m1 =~= m2);
}

/// On an empty trail the search question is plain truth-table
/// satisfiability.
pub proof fn lemma_empty_trail_extendable(cs: Seq<Seq<Literal>>, n: nat)
    ensures
        extendable_to_sat(cs, n, Seq::<(Literal, usize)>::empty()) == cnf_satisfiable(cs, n),
{
    if cnf_satisfiable(cs, n) {
        let v = choose|v: Seq<bool>| v.len() == n && cnf_sat_by(v, cs);
        assert(consistent_with(v, Seq::<(Literal, usize)>::empty()));
        assert(extendable_to_sat(cs, n, Seq::<(Literal, usize)>::empty()));
    }
}

// ---------------------------------------------------------------------------
// The functional model of the search: what the solver chooses at every
// step is a function of its state, which makes the whole search — and
// with it the reported assignment — deterministic.
// ---------------------------------------------------------------------------

/// The clause still holds a literal for exactly one active variable.
pub open spec fn has_unit(c: Seq<Literal>, mask: Seq<bool>) -> bool {
    exists|i: int| is_unit_of(c, mask, i)
}

/// The unit literal of a clause that has one.  The witness is unique,
/// so this is a function of the clause and the mask.
pub open spec fn unit_of(c: Seq<Literal>, mask: Seq<bool>) -> (Literal, usize) {
    let i = choose|i: int| is_unit_of(c, mask, i);
    (c[i], i as usize)
}

/// The unit literal of the first clause, from `j` on, that the trail
/// does not satisfy and that has one.
pub open spec fn first_unit(cs: Seq<Seq<Literal>>, trail: Seq<(Literal, usize)>, mask: Seq<bool>, j: int) -> Option<(Literal, usize)>
    decreases cs.len() - j when 0 <= j <= cs.len()
{
    if j >= cs.len() {
        None
    } else if !clause_sat_by_trail(cs[j], trail) && has_unit(cs[j], mask) {
        Some(unit_of(cs[j], mask))
    } else {
        first_unit(cs, trail, mask, j + 1)
    }
}

/// The lowest-id active pure variable from `i` on, with its polarity.
pub open spec fn lowest_pure(cs: Seq<Seq<Literal>>, mask: Seq<bool>, i: int, n: nat) -> Option<(Literal, usize)>
    decreases n - i when 0 <= i <= n
{
    if i >= n {
        None
    } else if mask[i] && is_pure(cs, i, Literal::Must) {
        Some((Literal::Must, i as usize))
    } else if mask[i] && is_pure(cs, i, Literal::MustNot) {
        Some((Literal::MustNot, i as usize))
    } else {
        lowest_pure(cs, mask, i + 1, n)
    }
}

/// The lowest active variable id from `i` on, or the mask's length
/// when none is active.
pub open spec fn lowest_active(mask: Seq<bool>, i: int) -> int
    decreases mask.len() - i when 0 <= i <= mask.len()
{
    if i >= mask.len() {
        i
    } else if mask[i] {
        i
    } else {
        lowest_active(mask, i + 1)
    }
}

/// What `first_unit` returns, spelled out: the unit of the first
/// eligible clause, or nothing when no clause is eligible.
pub proof fn lemma_first_unit_spec(cs: Seq<Seq<Literal>>, trail: Seq<(Literal, usize)>, mask: Seq<bool>, j: int)
    requires
        0 <= j <= cs.len(),
        forall|j2: int| 0 <= j2 < cs.len() ==> (#[trigger] cs[j2]).len() <= usize::MAX,
    ensures
        match first_unit(cs, trail, mask, j) {
            Some(u) => exists|j2: int| j <= j2 < cs.len()
                && !clause_sat_by_trail(#[trigger] cs[j2], trail)
                && is_unit_of(cs[j2], mask, u.1 as int)
                && u.0 == cs[j2][u.1 as int],
            None => forall|j2: int| j <= j2 < cs.len()
                ==> clause_sat_by_trail(#[trigger] cs[j2], trail)
                    || (forall|i: int| !is_unit_of(cs[j2], mask, i)),
        },
    decreases cs.len() - j,
{
    if j < cs.len() {
        if !clause_sat_by_trail(cs[j], trail) && has_unit(cs[j], mask) {
            let i = choose|i: int| is_unit_of(cs[j], mask, i);
            assert(is_unit_of(cs[j], mask, i));
            assert(0 <= i < cs[j].len());
            assert(unit_of(cs[j], mask).1 as int == i);
        } else {
            lemma_first_unit_spec(cs, trail, mask, j + 1);
        }
    }
}

/// A well-formed state stays well-formed when one active variable is
/// decided: the trail gains its entry and the mask drops it.
pub proof fn lemma_state_inv_assign(cs: Seq<Seq<Literal>>, n: nat, trail: Seq<(Literal, usize)>, mask: Seq<bool>, pol: Literal, id: usize)
    requires
        state_inv(cs, n, trail, mask),
        id < n,
        mask[id as int],
        pol != Literal::Absent,
    ensures
        state_inv(cs, n, trail.push((pol, id)), mask.update(id as int, false)),
        count_true(mask.update(id as int, false)) < count_true(mask),
{
    let t2 = trail.push((pol, id));
    let m2 = mask.update(id as int, false);
    assert(!on_trail(trail, id as int));
    assert forall|k: int| 0 <= k < trail.len()
        implies (#[trigger] trail[k]).1 != id by {
        if trail[k].1 == id {
            assert(on_trail(trail, id as int));
        }
    }
    assert forall|i: int| 0 <= i < m2.len()
        implies (#[trigger] m2[i]) == !on_trail(t2, i) by {
        if i == id as int {
            assert(t2[t2.len() - 1].1 == id);
            assert(on_trail(t2, i));
        } else {
            if on_trail(trail, i) {
                let k = choose|k: int| 0 <= k < trail.len() && (#[trigger] trail[k]).1 == i;
                assert(t2[k].1 == i);
                assert(on_trail(t2, i));
            }
            if on_trail(t2, i) {
                let k = choose|k: int| 0 <= k < t2.len() && (#[trigger] t2[k]).1 == i;
                assert(k < trail.len());
                assert(on_trail(trail, i));
            }
        }
    }
    lemma_count_true_lt(m2, mask, id as int);
}

/// The search, after unit propagation is exhausted: pure-literal
/// elimination to a fixpoint, then a branch on the lowest active
/// variable, first positive then negative.  Returns the verdict and,
/// for a satisfiable state, the final trail.
pub open spec fn search_pure(cs: Seq<Seq<Literal>>, n: nat, trail: Seq<(Literal, usize)>, mask: Seq<bool>) -> (bool, Seq<(Literal, usize)>)
    decreases count_true(mask), 0int
        when state_inv(cs, n, trail, mask) && n <= usize::MAX
        via search_pure_dec
{
    if forall|j: int| 0 <= j < cs.len() ==> clause_sat_by_trail(#[trigger] cs[j], trail) {
        (true, trail)
    } else if exists|j: int| 0 <= j < cs.len()
        && !clause_sat_by_trail(#[trigger] cs[j], trail) && clause_dead(cs[j], mask) {
        (false, trail)
    } else {
        match lowest_pure(cs, mask, 0, n) {
            Some(p) => search_pure(cs, n, trail.push(p), mask.update(p.1 as int, false)),
            None => {
                let v = lowest_active(mask, 0);
                let r1 = search_main(cs, n, trail.push((Literal::Must, v as usize)), mask.update(v, false));
                if r1.0 {
                    r1
                } else {
                    search_main(cs, n, trail.push((Literal::MustNot, v as usize)), mask.update(v, false))
                }
            },
        }
    }
}

/// The search from the top of a decision level: termination checks and
/// unit propagation to a fixpoint, then `search_pure`.
pub open spec fn search_main(cs: Seq<Seq<Literal>>, n: nat, trail: Seq<(Literal, usize)>, mask: Seq<bool>) -> (bool, Seq<(Literal, usize)>)
    decreases count_true(mask), 1int
        when state_inv(cs, n, trail, mask) && n <= usize::MAX
        via search_main_dec
{
    if forall|j: int| 0 <= j < cs.len() ==> clause_sat_by_trail(#[trigger] cs[j], trail) {
        (true, trail)
    } else if exists|j: int| 0 <= j < cs.len()
        && !clause_sat_by_trail(#[trigger] cs[j], trail) && clause_dead(cs[j], mask) {
        (false, trail)
    } else {
        match first_unit(cs, trail, mask, 0) {
            Some(u) => search_main(cs, n, trail.push(u), mask.update(u.1 as int, false)),
            None => search_pure(cs, n, trail, mask),
        }
    }
}

#[via_fn]
proof fn search_pure_dec(cs: Seq<Seq<Literal>>, n: nat, trail: Seq<(Literal, usize)>, mask: Seq<bool>) {
    if !(forall|j: int| 0 <= j < cs.len() ==> clause_sat_by_trail(#[trigger] cs[j], trail))
        && !(exists|j: int| 0 <= j < cs.len()
            && !clause_sat_by_trail(#[trigger] cs[j], trail) && clause_dead(cs[j], mask)) {
        match lowest_pure(cs, mask, 0, n) {
            Some(p) => {
                lemma_lowest_pure_spec(cs, mask, 0, n);
                lemma_state_inv_assign(cs, n, trail, mask, p.0, p.1);
            },
            None => {
                let j = choose|j: int| 0 <= j < cs.len()
                    && !clause_sat_by_trail(#[trigger] cs[j], trail);
                assert(!clause_dead(cs[j], mask));
                let wi = choose|wi: int| 0 <= wi < mask.len()
                    && (#[trigger] mask[wi]) && wi < cs[j].len() && cs[j][wi] != Literal::Absent;
                lemma_lowest_active_spec(mask, wi);
                let v = lowest_active(mask, 0);
                lemma_state_inv_assign(cs, n, trail, mask, Literal::Must, v as usize);
                lemma_state_inv_assign(cs, n, trail, mask, Literal::MustNot, v as usize);
            },
        }
    }
}

#[via_fn]
proof fn search_main_dec(cs: Seq<Seq<Literal>>, n: nat, trail: Seq<(Literal, usize)>, mask: Seq<bool>) {
    if !(forall|j: int| 0 <= j < cs.len() ==> clause_sat_by_trail(#[trigger] cs[j], trail))
        && !(exists|j: int| 0 <= j < cs.len()
            && !clause_sat_by_trail(#[trigger] cs[j], trail) && clause_dead(cs[j], mask)) {
        match first_unit(cs, trail, mask, 0) {
            Some(u) => {
                lemma_first_unit_spec(cs, trail, mask, 0);
                let j2 = choose|j2: int| 0 <= j2 < cs.len()
                    && !clause_sat_by_trail(#[trigger] cs[j2], trail)
                    && is_unit_of(cs[j2], mask, u.1 as int)
                    && u.0 == cs[j2][u.1 as int];
                lemma_state_inv_assign(cs, n, trail, mask, u.0, u.1);
            },
            None => {},
        }
    }
}

/// What `lowest_pure` returns, spelled out: the least active pure
/// variable at or after `i`, with its one polarity.
pub proof fn lemma_lowest_pure_spec(cs: Seq<Seq<Literal>>, mask: Seq<bool>, i: int, n: nat)
    requires
        0 <= i <= n,
        n <= usize::MAX,
    ensures
        match lowest_pure(cs, mask, i, n) {
            Some(p) => i <= p.1 < n && mask[p.1 as int] && is_pure(cs, p.1 as int, p.0)
                && (forall|i2: int| i <= i2 < p.1 && mask[i2] ==> !is_pure_any(cs, i2)),
            None => forall|i2: int| i <= i2 < n && mask[i2] ==> !is_pure_any(cs, i2),
        },
    decreases n - i,
{
    if i < n {
        if mask[i] && is_pure(cs, i, Literal::Must) {
        } else if mask[i] && is_pure(cs, i, Literal::MustNot) {
        } else {
            lemma_lowest_pure_spec(cs, mask, i + 1, n);
        }
    }
}

/// When some variable at or after `i` is active, `lowest_active` from 0
/// lands on an active variable no later than it.
pub proof fn lemma_lowest_active_spec(mask: Seq<bool>, w: int)
    requires
        0 <= w < mask.len(),
        mask[w],
    ensures
        0 <= lowest_active(mask, 0) <= w,
        mask[lowest_active(mask, 0)],
        forall|i2: int| 0 <= i2 < lowest_active(mask, 0) ==> !mask[i2],
{
    lemma_lowest_active_below(mask, 0, w);
}

/// Helper induction for `lemma_lowest_active_spec`.
proof fn lemma_lowest_active_below(mask: Seq<bool>, i: int, w: int)
    requires
        0 <= i <= w < mask.len(),
        mask[w],
    ensures
        i <= lowest_active(mask, i) <= w,
        mask[lowest_active(mask, i)],
        forall|i2: int| i <= i2 < lowest_active(mask, i) ==> !mask[i2],
    decreases w - i,
{
    if !mask[i] {
        lemma_lowest_active_below(mask, i + 1, w);
    }
}

// ---------------------------------------------------------------------------
// Counting active variables (the termination measure)
// ---------------------------------------------------------------------------

/// How many variables the mask still holds active.
pub open spec fn count_true(mask: Seq<bool>) -> nat
    decreases mask.len(),
{
    if mask.len() == 0 {
        0
    } else {
        count_true(mask.drop_last()) + if mask.last() { 1nat } else { 0nat }
    }
}

/// A mask active nowhere the other is inactive has at most as many
/// active variables.
pub proof fn lemma_count_true_le(m1: Seq<bool>, m2: Seq<bool>)
    requires
        m1.len() == m2.len(),
        forall|i: int| 0 <= i < m1.len() && (#[trigger] m1[i]) ==> m2[i],
    ensures
        count_true(m1) <= count_true(m2),
    decreases m1.len(),
{
    if m1.len() > 0 {
        assert(forall|i: int| 0 <= i < m1.len() - 1 && (#[trigger] m1.drop_last()[i]) ==> m2.drop_last()[i]);
        lemma_count_true_le(m1.drop_last(), m2.drop_last());
        assert(m1.last() ==> m2.last());
    }
}

/// The count drops strictly when in addition some variable active in the
/// second mask is inactive in the first.
pub proof fn lemma_count_true_lt(m1: Seq<bool>, m2: Seq<bool>, w: int)
    requires
        m1.len() == m2.len(),
        forall|i: int| 0 <= i < m1.len() && (#[trigger] m1[i]) ==> m2[i],
        0 <= w < m1.len(),
        !m1[w],
        m2[w],
    ensures
        count_true(m1) < count_true(m2),
    decreases m1.len(),
{
    assert(forall|i: int| 0 <= i < m1.len() - 1 && (#[trigger] m1.drop_last()[i]) ==> m2.drop_last()[i]);
    if w == m1.len() - 1 {
        lemma_count_true_le(m1.drop_last(), m2.drop_last());
    } else {
        lemma_count_true_lt(m1.drop_last(), m2.drop_last(), w);
        assert(m1.last() ==> m2.last());
    }
}

} // verus!
