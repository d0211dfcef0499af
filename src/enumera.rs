//! Every choice of one group per course, in a fixed order.
use vstd::prelude::*;
use vstd::arithmetic::div_mod::{
    lemma_div_denominator, lemma_fundamental_div_mod, lemma_fundamental_div_mod_converse,
    lemma_multiply_divide_lt,
};
use crate::model::{AssignaturaParse, Grup, ProtoHorari, SelectedAssig};

verus! {

/// Why a list of courses cannot be planned.
#[derive(Debug, Clone, Copy, PartialEq, Eq, Structural)]
pub enum ErrorEstructural {
    /// The list holds no course.
    CapAssignatura,
    /// The course at this position offers no group.
    SenseGrups(usize),
    /// The lecture course at position `assignatura` offers group number
    /// `grup`, which is not a multiple of 10.
    GrupTeoria { assignatura: usize, grup: usize },
}

/// Number of groups that course `t` offers.
pub open spec fn opcions(c: Seq<AssignaturaParse>, t: int) -> int {
    c[t].grups@.len() as int
}

/// Every course in `c` offers at least one group.
pub open spec fn totes_amb_grups(c: Seq<AssignaturaParse>) -> bool {
    forall|t: int| 0 <= t < c.len() ==> #[trigger] opcions(c, t) > 0
}

/// The product of the group counts of the courses at positions `lo .. hi`.
pub open spec fn producte_entre(c: Seq<AssignaturaParse>, lo: int, hi: int) -> int
    decreases hi - lo,
{
    if hi <= lo {
        1
    } else {
        producte_entre(c, lo, hi - 1) * opcions(c, hi - 1)
    }
}

/// Number of choices of one group per course.
pub open spec fn combinacions(c: Seq<AssignaturaParse>) -> int {
    producte_entre(c, 0, c.len() as int)
}

/// Position of the group that choice number `k` takes for course `t`, when
/// the choices over the first `n` courses are counted with the last course
/// varying fastest.
pub open spec fn xifra(c: Seq<AssignaturaParse>, n: int, k: int, t: int) -> int {
    (k / producte_entre(c, t + 1, n)) % opcions(c, t)
}

/// `a` is the group at position `g` of course `curs`, with the course's name
/// and kind.
pub open spec fn tria(a: SelectedAssig, curs: AssignaturaParse, g: int) -> bool {
    &&& a.nom == curs.nom
    &&& a.kind == curs.kind
    &&& a.grup.num == curs.grups@[g].num
    &&& a.grup.llengua == curs.grups@[g].llengua
    &&& a.grup.sessions@ == curs.grups@[g].sessions@
}

/// `sel` is choice number `k` over the first `n` courses of `c`.
pub open spec fn es_combinacio(sel: Seq<SelectedAssig>, c: Seq<AssignaturaParse>, n: int, k: int) -> bool {
    &&& sel.len() == n
    &&& forall|t: int| 0 <= t < n ==> #[trigger] tria(sel[t], c[t], xifra(c, n, k, t))
}

/// A product of positive counts is positive.
pub proof fn lemma_producte_positiu(c: Seq<AssignaturaParse>, lo: int, hi: int)
    requires
        0 <= lo,
        hi <= c.len(),
        totes_amb_grups(c),
    ensures
        producte_entre(c, lo, hi) > 0,
    decreases hi - lo,
{
    if hi > lo {
        lemma_producte_positiu(c, lo, hi - 1);
        let p = producte_entre(c, lo, hi - 1);
        let m = opcions(c, hi - 1);
        assert(p * m > 0) by (nonlinear_arith)
            requires
                p > 0,
                m > 0,
        ;
    }
}

/// Dropping the last of the first `n` courses: choice `k` picks for every
/// earlier course what choice `k / m` picks among the first `n - 1`, where
/// `m` is the group count of the course dropped.
pub proof fn lemma_xifra_div(c: Seq<AssignaturaParse>, n: int, k: int, t: int)
    requires
        0 <= t < n - 1,
        n <= c.len(),
        0 <= k,
        totes_amb_grups(c),
    ensures
        xifra(c, n, k, t) == xifra(c, n - 1, k / opcions(c, n - 1), t),
{
    let m = opcions(c, n - 1);
    let p = producte_entre(c, t + 1, n - 1);
    lemma_producte_positiu(c, t + 1, n - 1);
    assert(producte_entre(c, t + 1, n) == p * m);
    lemma_div_denominator(k, m, p);
    assert(m * p == p * m) by (nonlinear_arith);
}

/// The last of the first `n` courses varies fastest.
pub proof fn lemma_xifra_darrera(c: Seq<AssignaturaParse>, n: int, k: int)
    requires
        0 < n <= c.len(),
        0 <= k,
        totes_amb_grups(c),
    ensures
        xifra(c, n, k, n - 1) == k % opcions(c, n - 1),
{
    assert(producte_entre(c, n, n) == 1);
}

/// Two different choice numbers pick different groups for some course.
pub proof fn lemma_xifres_distintes(c: Seq<AssignaturaParse>, n: int, k1: int, k2: int)
    requires
        0 <= n <= c.len(),
        totes_amb_grups(c),
        0 <= k1 < producte_entre(c, 0, n),
        0 <= k2 < producte_entre(c, 0, n),
        k1 != k2,
    ensures
        exists|t: int| 0 <= t < n && xifra(c, n, k1, t) != xifra(c, n, k2, t),
    decreases n,
{
    if n == 0 {
        assert(false);
    } else {
        let m = opcions(c, n - 1);
        let p = producte_entre(c, 0, n - 1);
        lemma_xifra_darrera(c, n, k1);
        lemma_xifra_darrera(c, n, k2);
        if k1 % m != k2 % m {
            assert(xifra(c, n, k1, n - 1) != xifra(c, n, k2, n - 1));
        } else {
            lemma_fundamental_div_mod(k1, m);
            lemma_fundamental_div_mod(k2, m);
            assert(k1 / m != k2 / m);
            assert(p * m == m * p) by (nonlinear_arith);
            lemma_multiply_divide_lt(k1, m, p);
            lemma_multiply_divide_lt(k2, m, p);
            assert(0 <= k1 / m && 0 <= k2 / m) by (nonlinear_arith)
                requires
                    k1 >= 0,
                    k2 >= 0,
                    m > 0,
            ;
            lemma_xifres_distintes(c, n - 1, k1 / m, k2 / m);
            let t = choose|t: int|
                0 <= t < n - 1 && #[trigger] xifra(c, n - 1, k1 / m, t) != xifra(c, n - 1, k2 / m, t);
            lemma_xifra_div(c, n, k1, t);
            lemma_xifra_div(c, n, k2, t);
        }
    }
}

/// Extending choice `k` over the first `j` courses with group `g` of course
/// `j` gives choice `k * m + g` over the first `j + 1` courses.
proof fn lemma_xifra_estesa(c: Seq<AssignaturaParse>, j: int, k: int, g: int)
    requires
        0 <= j < c.len(),
        totes_amb_grups(c),
        0 <= k,
        0 <= g < opcions(c, j),
    ensures
        xifra(c, j + 1, k * opcions(c, j) + g, j) == g,
        forall|t: int|
            0 <= t < j ==> #[trigger] xifra(c, j + 1, k * opcions(c, j) + g, t) == xifra(c, j, k, t),
{
    let m = opcions(c, j);
    let kk = k * m + g;
    lemma_fundamental_div_mod_converse(kk, m, k, g);
    assert(kk >= 0) by (nonlinear_arith)
        requires
            k >= 0,
            m > 0,
            g >= 0,
            kk == k * m + g,
    ;
    lemma_xifra_darrera(c, j + 1, kk);
    assert forall|t: int| 0 <= t < j implies #[trigger] xifra(c, j + 1, kk, t) == xifra(c, j, k, t) by {
        lemma_xifra_div(c, j + 1, kk, t);
    }
}

/// A group with the same number, language and sessions.
fn copia_grup(g: &Grup) -> (r: Grup)
    ensures
        r.num == g.num,
        r.llengua == g.llengua,
        r.sessions@ == g.sessions@,
{
    Grup { num: g.num, llengua: g.llengua, sessions: g.sessions.clone() }
}

/// The group at position `g` of course `curs`, chosen.
fn tria_grup(curs: &AssignaturaParse, g: usize) -> (r: SelectedAssig)
    requires
        g < curs.grups@.len(),
    ensures
        tria(r, *curs, g as int),
{
    SelectedAssig { nom: curs.nom.clone(), grup: copia_grup(&curs.grups[g]), kind: curs.kind }
}

/// A copy of a choice, entry by entry.
fn copia_seleccio(sel: &Vec<SelectedAssig>) -> (r: Vec<SelectedAssig>)
    ensures
        r@.len() == sel@.len(),
        forall|t: int|
            0 <= t < sel@.len() ==> {
                &&& (#[trigger] r@[t]).nom == sel@[t].nom
                &&& r@[t].kind == sel@[t].kind
                &&& r@[t].grup.num == sel@[t].grup.num
                &&& r@[t].grup.llengua == sel@[t].grup.llengua
                &&& r@[t].grup.sessions@ == sel@[t].grup.sessions@
            },
{
    let mut r: Vec<SelectedAssig> = Vec::new();
    let mut t: usize = 0;
    while t < sel.len()
        invariant
            0 <= t <= sel@.len(),
            r@.len() == t,
            forall|u: int|
                0 <= u < t ==> {
                    &&& (#[trigger] r@[u]).nom == sel@[u].nom
                    &&& r@[u].kind == sel@[u].kind
                    &&& r@[u].grup.num == sel@[u].grup.num
                    &&& r@[u].grup.llengua == sel@[u].grup.llengua
                    &&& r@[u].grup.sessions@ == sel@[u].grup.sessions@
                },
        decreases sel@.len() - t,
    {
        let a = &sel[t];
        r.push(SelectedAssig { nom: a.nom.clone(), grup: copia_grup(&a.grup), kind: a.kind });
        t += 1;
    }
    r
}

/// Every choice of one group per course, each listing the courses in their
/// order. The first course varies slowest and the last one fastest: choice
/// number `k` takes, for course `t`, group `xifra(c, n, k, t)`. Fails when
/// there is no course or some course offers no group.
pub fn all_permutations(assigs: &Vec<AssignaturaParse>) -> (r: Result<Vec<ProtoHorari>, ErrorEstructural>)
    ensures
        assigs@.len() == 0 ==> r == Err::<Vec<ProtoHorari>, _>(ErrorEstructural::CapAssignatura),
        forall|e: ErrorEstructural| r == Err::<Vec<ProtoHorari>, _>(e) ==> match e {
            ErrorEstructural::CapAssignatura => assigs@.len() == 0,
            ErrorEstructural::SenseGrups(t) => {
                &&& assigs@.len() > 0
                &&& t < assigs@.len()
                &&& opcions(assigs@, t as int) == 0
                &&& forall|u: int| 0 <= u < t ==> #[trigger] opcions(assigs@, u) > 0
            },
            ErrorEstructural::GrupTeoria { .. } => false,
        },
        r is Ok <==> assigs@.len() > 0 && totes_amb_grups(assigs@),
        r matches Ok(v) ==> {
            &&& v@.len() == combinacions(assigs@)
            &&& forall|k: int|
                0 <= k < v@.len() ==> es_combinacio(
                    (#[trigger] v@[k]).0@,
                    assigs@,
                    assigs@.len() as int,
                    k,
                )
        },
{
    let ghost c = assigs@;
    if assigs.len() == 0 {
        return Err(ErrorEstructural::CapAssignatura);
    }
    let mut t: usize = 0;
    while t < assigs.len()
        invariant
            c == assigs@,
            0 <= t <= c.len(),
            forall|u: int| 0 <= u < t ==> #[trigger] opcions(c, u) > 0,
        decreases c.len() - t,
    {
        if assigs[t].grups.len() == 0 {
            assert(opcions(c, t as int) == 0);
            return Err(ErrorEstructural::SenseGrups(t));
        }
        t += 1;
    }
    let mut acc: Vec<ProtoHorari> = Vec::new();
    acc.push(ProtoHorari(Vec::new()));
    let mut j: usize = 0;
    while j < assigs.len()
        invariant
            c == assigs@,
            totes_amb_grups(c),
            0 <= j <= c.len(),
            acc@.len() == producte_entre(c, 0, j as int),
            forall|k: int|
                0 <= k < acc@.len() ==> es_combinacio((#[trigger] acc@[k]).0@, c, j as int, k),
        decreases c.len() - j,
    {
        let curs = &assigs[j];
        let m = curs.grups.len();
        assert(m == opcions(c, j as int));
        let mut next: Vec<ProtoHorari> = Vec::new();
        let mut k: usize = 0;
        while k < acc.len()
            invariant
                c == assigs@,
                totes_amb_grups(c),
                0 <= j < c.len(),
                *curs == c[j as int],
                m == opcions(c, j as int),
                acc@.len() == producte_entre(c, 0, j as int),
                forall|k: int|
                    0 <= k < acc@.len() ==> es_combinacio((#[trigger] acc@[k]).0@, c, j as int, k),
                0 <= k <= acc@.len(),
                next@.len() == k * m,
                forall|q: int|
                    0 <= q < next@.len() ==> es_combinacio(
                        (#[trigger] next@[q]).0@,
                        c,
                        j + 1,
                        q,
                    ),
            decreases acc@.len() - k,
        {
            let mut g: usize = 0;
            while g < m
                invariant
                    c == assigs@,
                    totes_amb_grups(c),
                    0 <= j < c.len(),
                    *curs == c[j as int],
                    m == opcions(c, j as int),
                    0 <= k < acc@.len(),
                    es_combinacio(acc@[k as int].0@, c, j as int, k as int),
                    0 <= g <= m,
                    next@.len() == k * m + g,
                    forall|q: int|
                        0 <= q < next@.len() ==> es_combinacio(
                            (#[trigger] next@[q]).0@,
                            c,
                            j + 1,
                            q,
                        ),
                decreases m - g,
            {
                let mut sel = copia_seleccio(&acc[k].0);
                sel.push(tria_grup(curs, g));
                proof {
                    lemma_xifra_estesa(c, j as int, k as int, g as int);
                    let q = k * m + g;
                    assert forall|t: int| 0 <= t < j + 1 implies #[trigger] tria(
                        sel@[t],
                        c[t],
                        xifra(c, j + 1, q, t),
                    ) by {
                        if t < j {
                            assert(tria(acc@[k as int].0@[t], c[t], xifra(c, j as int, k as int, t)));
                        }
                    }
                }
                next.push(ProtoHorari(sel));
                g += 1;
            }
            assert((k + 1) * m == k * m + m) by (nonlinear_arith);
            k += 1;
        }
        acc = next;
        j += 1;
    }
    assert(c.len() == j);
    Ok(acc)
}

} // verus!
