//! Ranking the timetables and running the whole planning pass.
use vstd::prelude::*;
use core::cmp::Ordering;
use crate::colloca::{representa, sense_conflictes};
use crate::enumera::{
    all_permutations, combinacions, es_combinacio, lemma_producte_positiu, opcions, tria,
    totes_amb_grups, ErrorEstructural,
};
use crate::horari::{compara, Horari};
use crate::lleis::{lemma_compara_total, lemma_compara_transitiva};
use crate::model::{AssigKind, AssignaturaParse, ProtoHorari, SelectedAssig};

verus! {

broadcast use vstd::seq_lib::group_to_multiset_ensures, vstd::seq_lib::to_multiset_insert;

/// No timetable ranks below one that comes after it.
pub open spec fn ordenat(s: Seq<Horari>) -> bool {
    forall|i: int, j: int| 0 <= i < j < s.len() ==> compara(#[trigger] s[i], #[trigger] s[j]) != Ordering::Less
}

/// Sorts best first, by insertion after every timetable that ranks at least
/// as well. A list already sorted is left as it is.
pub fn ordena(hs: &mut Vec<Horari>)
    ensures
        final(hs)@.to_multiset() == old(hs)@.to_multiset(),
        ordenat(final(hs)@),
        ordenat(old(hs)@) ==> final(hs)@ == old(hs)@,
{
    let ghost orig = old(hs)@;
    let n = hs.len();
    let mut out: Vec<Horari> = Vec::new();
    let mut i: usize = 0;
    while i < n
        invariant
            n == orig.len(),
            0 <= i <= n,
            hs@ == orig.subrange(i as int, n as int),
            out@.to_multiset() == orig.take(i as int).to_multiset(),
            ordenat(out@),
            ordenat(orig) ==> out@ == orig.take(i as int),
        decreases n - i,
    {
        let x = hs.remove(0);
        assert(x == orig[i as int]);
        let mut p: usize = 0;
        let mut trobat = false;
        while p < out.len() && !trobat
            invariant
                0 <= p <= out@.len(),
                forall|q: int| 0 <= q < p ==> compara(#[trigger] out@[q], x) != Ordering::Less,
                trobat ==> p < out@.len() && compara(out@[p as int], x) == Ordering::Less,
            decreases out@.len() - p + if trobat { 0int } else { 1 },
        {
            match out[p].cmp(&x) {
                Ordering::Less => {
                    trobat = true;
                },
                _ => {
                    p += 1;
                },
            }
        }
        let ghost prev = out@;
        out.insert(p, x);
        proof {
            assert(out@ == prev.insert(p as int, x));
            assert(orig.take(i + 1) =~= orig.take(i as int).push(x));
            assert forall|a: int, b: int| 0 <= a < b < out@.len() implies compara(
                #[trigger] out@[a],
                #[trigger] out@[b],
            ) != Ordering::Less by {
                if b < p {
                    assert(out@[a] == prev[a] && out@[b] == prev[b]);
                } else if b == p {
                    assert(out@[a] == prev[a]);
                } else if a < p {
                    assert(out@[a] == prev[a] && out@[b] == prev[b - 1]);
                } else if a == p {
                    assert(out@[b] == prev[b - 1]);
                    lemma_compara_total(prev[p as int], x);
                    if b - 1 > p {
                        assert(compara(prev[p as int], prev[b - 1]) != Ordering::Less);
                    }
                    lemma_compara_transitiva(x, prev[p as int], prev[b - 1]);
                } else {
                    assert(out@[a] == prev[a - 1] && out@[b] == prev[b - 1]);
                }
            }
            if ordenat(orig) {
                assert(prev == orig.take(i as int));
                if p < prev.len() {
                    assert(compara(orig[p as int], orig[i as int]) != Ordering::Less);
                }
                assert(p == prev.len());
                assert(out@ =~= orig.take(i + 1));
            }
        }
        i += 1;
    }
    proof {
        assert(orig.take(n as int) =~= orig);
    }
    *hs = out;
}

/// The choices of `s` whose sessions do not collide, in their order.
pub open spec fn valides(s: Seq<ProtoHorari>) -> Seq<ProtoHorari>
    decreases s.len(),
{
    if s.len() == 0 {
        seq![]
    } else {
        let r = valides(s.drop_last());
        if sense_conflictes(s.last().0@) {
            r.push(s.last())
        } else {
            r
        }
    }
}

/// The grids of the choices whose sessions do not collide, in the order of the
/// choices.
pub fn filtra_valids(props: &Vec<ProtoHorari>) -> (r: Vec<Horari>)
    requires
        forall|k: int| 0 <= k < props@.len() ==> (#[trigger] props@[k]).wf(),
    ensures
        r@.len() == valides(props@).len(),
        forall|i: int| 0 <= i < r@.len() ==> representa(valides(props@)[i].0@, #[trigger] r@[i]),
{
    let mut r: Vec<Horari> = Vec::new();
    let mut k: usize = 0;
    while k < props.len()
        invariant
            forall|k: int| 0 <= k < props@.len() ==> (#[trigger] props@[k]).wf(),
            0 <= k <= props@.len(),
            r@.len() == valides(props@.take(k as int)).len(),
            forall|i: int|
                0 <= i < r@.len() ==> representa(
                    valides(props@.take(k as int))[i].0@,
                    #[trigger] r@[i],
                ),
        decreases props@.len() - k,
    {
        assert(props@.take(k + 1).drop_last() =~= props@.take(k as int));
        match Horari::colloca(&props[k]) {
            Ok(h) => {
                r.push(h);
            },
            Err(_) => {},
        }
        k += 1;
    }
    assert(props@.take(props@.len() as int) =~= props@);
    r
}

/// Every lecture course numbers its groups by multiples of 10.
pub open spec fn teoria_ok(c: Seq<AssignaturaParse>) -> bool {
    forall|t: int, g: int|
        0 <= t < c.len() && c[t].kind == Some(AssigKind::Teoria) && 0 <= g < opcions(c, t)
            ==> #[trigger] c[t].grups@[g].num % 10 == 0
}

/// The list can be planned: it holds a course, every course offers a group,
/// and lecture groups are numbered by multiples of 10.
pub open spec fn estructura_ok(c: Seq<AssignaturaParse>) -> bool {
    c.len() > 0 && totes_amb_grups(c) && teoria_ok(c)
}

/// Course `t` is planned without fault.
pub open spec fn curs_ok(c: Seq<AssignaturaParse>, t: int) -> bool {
    &&& opcions(c, t) > 0
    &&& c[t].kind == Some(AssigKind::Teoria) ==> forall|g: int|
        0 <= g < opcions(c, t) ==> #[trigger] c[t].grups@[g].num % 10 == 0
}

/// What an error says of the list: the course that it names is the first
/// faulty one, and the fault is the one named.
pub open spec fn error_descriu(c: Seq<AssignaturaParse>, e: ErrorEstructural) -> bool {
    match e {
        ErrorEstructural::CapAssignatura => c.len() == 0,
        ErrorEstructural::SenseGrups(t) => {
            &&& t < c.len()
            &&& opcions(c, t as int) == 0
            &&& forall|u: int| 0 <= u < t ==> #[trigger] curs_ok(c, u)
        },
        ErrorEstructural::GrupTeoria { assignatura: t, grup: g } => {
            &&& t < c.len()
            &&& opcions(c, t as int) > 0
            &&& c[t as int].kind == Some(AssigKind::Teoria)
            &&& g % 10 != 0
            &&& exists|x: int| 0 <= x < opcions(c, t as int) && #[trigger] c[t as int].grups@[x].num == g
            &&& forall|u: int| 0 <= u < t ==> #[trigger] curs_ok(c, u)
        },
    }
}

/// Checks that the list can be planned.
pub fn comprova_estructura(assigs: &Vec<AssignaturaParse>) -> (r: Result<(), ErrorEstructural>)
    ensures
        r is Ok <==> estructura_ok(assigs@),
        r matches Err(e) ==> error_descriu(assigs@, e),
{
    let ghost c = assigs@;
    if assigs.len() == 0 {
        return Err(ErrorEstructural::CapAssignatura);
    }
    let mut t: usize = 0;
    while t < assigs.len()
        invariant
            c == assigs@,
            0 <= t <= c.len(),
            forall|u: int| 0 <= u < t ==> #[trigger] curs_ok(c, u),
        decreases c.len() - t,
    {
        let curs = &assigs[t];
        if curs.grups.len() == 0 {
            assert(opcions(c, t as int) == 0);
            return Err(ErrorEstructural::SenseGrups(t));
        }
        let teoria = match curs.kind {
            Some(AssigKind::Teoria) => true,
            _ => false,
        };
        if teoria {
            let mut g: usize = 0;
            while g < curs.grups.len()
                invariant
                    c == assigs@,
                    0 <= t < c.len(),
                    *curs == c[t as int],
                    c[t as int].kind == Some(AssigKind::Teoria),
                    opcions(c, t as int) > 0,
                    forall|u: int| 0 <= u < t ==> #[trigger] curs_ok(c, u),
                    0 <= g <= opcions(c, t as int),
                    forall|x: int| 0 <= x < g ==> #[trigger] c[t as int].grups@[x].num % 10 == 0,
                decreases opcions(c, t as int) - g,
            {
                let num = curs.grups[g].num;
                if num % 10 != 0 {
                    assert(c[t as int].grups@[g as int].num == num);
                    assert(!teoria_ok(c));
                    return Err(ErrorEstructural::GrupTeoria { assignatura: t, grup: num });
                }
                g += 1;
            }
        }
        assert(curs_ok(c, t as int));
        t += 1;
    }
    assert forall|u: int| 0 <= u < c.len() implies #[trigger] opcions(c, u) > 0 by {
        assert(curs_ok(c, u));
    }
    assert forall|u: int, g: int|
        0 <= u < c.len() && c[u].kind == Some(AssigKind::Teoria) && 0 <= g < opcions(c, u)
        implies #[trigger] c[u].grups@[g].num % 10 == 0 by {
        assert(curs_ok(c, u));
    }
    Ok(())
}

/// Choice number `k` of the courses `c` has no colliding sessions.
pub open spec fn valida(c: Seq<AssignaturaParse>, k: int) -> bool {
    exists|sel: Seq<SelectedAssig>| es_combinacio(sel, c, c.len() as int, k) && #[trigger] sense_conflictes(sel)
}

/// How many of the first `m` choices of the courses `c` have no colliding
/// sessions.
pub open spec fn nombre_valides(c: Seq<AssignaturaParse>, m: int) -> nat
    decreases m,
{
    if m <= 0 {
        0
    } else {
        nombre_valides(c, m - 1) + if valida(c, m - 1) {
            1nat
        } else {
            0nat
        }
    }
}

/// Whether a choice collides depends only on which groups it takes.
proof fn lemma_valida_unica(sel: Seq<SelectedAssig>, c: Seq<AssignaturaParse>, k: int)
    requires
        es_combinacio(sel, c, c.len() as int, k),
    ensures
        valida(c, k) <==> sense_conflictes(sel),
{
    if valida(c, k) {
        let altra = choose|altra: Seq<SelectedAssig>|
            es_combinacio(altra, c, c.len() as int, k) && #[trigger] sense_conflictes(altra);
        assert forall|i: int| 0 <= i < sel.len() implies #[trigger] sel[i].grup.sessions@
            == altra[i].grup.sessions@ by {
            assert(tria(sel[i], c[i], crate::enumera::xifra(c, c.len() as int, k, i)));
            assert(tria(altra[i], c[i], crate::enumera::xifra(c, c.len() as int, k, i)));
        }
        assert forall|i1: int, s1: int, i2: int, s2: int, d: int, hora: int|
            #[trigger] crate::colloca::cobreix(sel, i1, s1, d, hora)
                && #[trigger] crate::colloca::cobreix(sel, i2, s2, d, hora)
            implies i1 == i2 && s1 == s2 by {
            assert(crate::colloca::cobreix(altra, i1, s1, d, hora));
            assert(crate::colloca::cobreix(altra, i2, s2, d, hora));
        }
    }
}

/// `x` is one of the first `m` choices of `props`, and its sessions do not
/// collide.
pub open spec fn entre_valides(props: Seq<ProtoHorari>, m: int, x: ProtoHorari) -> bool {
    exists|k: int| 0 <= k < m && #[trigger] props[k] == x && sense_conflictes(props[k].0@)
}

/// The choices that survive among the first `m` are counted by
/// `nombre_valides`, and each of them is one of those `m` choices.
proof fn lemma_valides_compta(props: Seq<ProtoHorari>, c: Seq<AssignaturaParse>, m: int)
    requires
        0 <= m <= props.len(),
        forall|k: int| 0 <= k < props.len() ==> es_combinacio(#[trigger] props[k].0@, c, c.len() as int, k),
    ensures
        valides(props.take(m)).len() == nombre_valides(c, m),
        forall|i: int|
            0 <= i < valides(props.take(m)).len() ==> entre_valides(
                props,
                m,
                #[trigger] valides(props.take(m))[i],
            ),
        forall|k: int|
            0 <= k < m && sense_conflictes(#[trigger] props[k].0@) ==> valides(props.take(m)).contains(props[k]),
    decreases m,
{
    if m == 0 {
        assert(props.take(m).len() == 0);
        assert(valides(props.take(m)).len() == 0);
    } else {
        lemma_valides_compta(props, c, m - 1);
        assert(props.take(m).drop_last() =~= props.take(m - 1));
        lemma_valida_unica(props[m - 1].0@, c, m - 1);
        let vm = valides(props.take(m));
        let vp = valides(props.take(m - 1));
        assert forall|i: int| 0 <= i < vm.len() implies entre_valides(props, m, #[trigger] vm[i]) by {
            if i < vp.len() {
                assert(vm[i] == vp[i]);
                assert(entre_valides(props, m - 1, vp[i]));
                let k = choose|k: int|
                    0 <= k < m - 1 && #[trigger] props[k] == vp[i] && sense_conflictes(props[k].0@);
                assert(props[k] == vm[i]);
            } else {
                assert(vm[i] == props[m - 1]);
            }
        }
        assert forall|k: int| 0 <= k < m && sense_conflictes(#[trigger] props[k].0@) implies vm.contains(
            props[k],
        ) by {
            if k < m - 1 {
                assert(vp.contains(props[k]));
                let i = choose|i: int| 0 <= i < vp.len() && vp[i] == props[k];
                assert(vm[i] == vp[i]);
            } else {
                assert(vm[vm.len() - 1] == props[m - 1]);
            }
        }
    }
}

/// `h` is the grid of some choice of one group per course of `c` whose
/// sessions do not collide.
pub open spec fn de_combinacio_valida(c: Seq<AssignaturaParse>, h: Horari) -> bool {
    exists|k: int, sel: Seq<SelectedAssig>|
        #![trigger es_combinacio(sel, c, c.len() as int, k), representa(sel, h)]
        0 <= k < combinacions(c) && es_combinacio(sel, c, c.len() as int, k) && sense_conflictes(sel)
            && representa(sel, h)
}

/// `h` is the grid of choice number `k` of the courses `c`.
pub open spec fn graella_de(c: Seq<AssignaturaParse>, k: int, h: Horari) -> bool {
    exists|sel: Seq<SelectedAssig>|
        #![trigger es_combinacio(sel, c, c.len() as int, k), representa(sel, h)]
        es_combinacio(sel, c, c.len() as int, k) && representa(sel, h)
}

/// What a planning pass returns: the timetables without collisions, best
/// first, the number of choices tried and the number kept.
#[derive(Debug)]
pub struct Resultat {
    pub horaris: Vec<Horari>,
    pub combinacions: usize,
    pub valids: usize,
}

/// The whole pass: checks the list, tries every choice of one group per
/// course, keeps the ones whose sessions do not collide and sorts them best
/// first.
pub fn genera_horaris(assigs: &Vec<AssignaturaParse>) -> (r: Result<Resultat, ErrorEstructural>)
    requires
        forall|t: int| 0 <= t < assigs@.len() ==> (#[trigger] assigs@[t]).wf(),
    ensures
        r is Ok <==> estructura_ok(assigs@),
        r matches Err(e) ==> error_descriu(assigs@, e),
        r matches Ok(res) ==> {
            &&& res.combinacions == combinacions(assigs@)
            &&& res.valids == res.horaris@.len()
            &&& res.valids == nombre_valides(assigs@, combinacions(assigs@))
            &&& ordenat(res.horaris@)
            &&& forall|i: int|
                0 <= i < res.horaris@.len() ==> #[trigger] de_combinacio_valida(
                    assigs@,
                    res.horaris@[i],
                )
            &&& forall|k: int|
                0 <= k < combinacions(assigs@) && #[trigger] valida(assigs@, k) ==> exists|i: int|
                    0 <= i < res.horaris@.len() && #[trigger] graella_de(assigs@, k, res.horaris@[i])
        },
{
    let ghost c = assigs@;
    match comprova_estructura(assigs) {
        Err(e) => {
            return Err(e);
        },
        Ok(()) => {},
    }
    let props = match all_permutations(assigs) {
        Ok(v) => v,
        Err(e) => {
            return Err(e);
        },
    };
    let total = props.len();
    proof {
        assert forall|k: int| 0 <= k < props@.len() implies (#[trigger] props@[k]).wf() by {
            assert(es_combinacio(props@[k].0@, c, c.len() as int, k));
            assert forall|i: int| 0 <= i < props@[k].0@.len() implies (#[trigger] props@[k].0@[i]).grup.wf() by {
                let g = crate::enumera::xifra(c, c.len() as int, k, i);
                assert(tria(props@[k].0@[i], c[i], g));
                assert(c[i].wf());
                assert(0 <= g < opcions(c, i)) by {
                    lemma_producte_positiu(c, i + 1, c.len() as int);
                    vstd::arithmetic::div_mod::lemma_mod_bound(k / crate::enumera::producte_entre(c, i + 1, c.len() as int), opcions(c, i));
                }
                assert(c[i].grups@[g].wf());
            }
        }
    }
    let mut horaris = filtra_valids(&props);
    let ghost sense_ordenar = horaris@;
    proof {
        lemma_valides_compta(props@, c, props@.len() as int);
        assert(props@.take(props@.len() as int) =~= props@);
    }
    ordena(&mut horaris);
    let valids = horaris.len();
    proof {
        assert(total == combinacions(c));
        assert(sense_ordenar.len() == valides(props@).len());
        assert(horaris@.to_multiset().len() == horaris@.len());
        assert(sense_ordenar.to_multiset().len() == sense_ordenar.len());
        assert(horaris@.len() == sense_ordenar.len());
        assert(valids == nombre_valides(c, combinacions(c)));
        assert forall|i: int| 0 <= i < horaris@.len() implies #[trigger] de_combinacio_valida(
            c,
            horaris@[i],
        ) by {
            assert(horaris@.to_multiset().count(horaris@[i]) > 0);
            assert(sense_ordenar.contains(horaris@[i]));
            let j = choose|j: int| 0 <= j < sense_ordenar.len() && sense_ordenar[j] == horaris@[i];
            let vs = valides(props@);
            assert(representa(vs[j].0@, sense_ordenar[j]));
            assert(entre_valides(props@, props@.len() as int, vs[j]));
            let k = choose|k: int| 0 <= k < props@.len() && #[trigger] props@[k] == vs[j]
                && sense_conflictes(props@[k].0@);
            assert(es_combinacio(props@[k].0@, c, c.len() as int, k));
            assert(representa(props@[k].0@, horaris@[i]));
        }
    }
    proof {
        assert forall|k: int| 0 <= k < combinacions(c) && #[trigger] valida(c, k) implies exists|i: int|
            0 <= i < horaris@.len() && #[trigger] graella_de(c, k, horaris@[i]) by {
            let vs = valides(props@);
            assert(es_combinacio(props@[k].0@, c, c.len() as int, k));
            lemma_valida_unica(props@[k].0@, c, k);
            assert(vs.contains(props@[k]));
            let j = choose|j: int| 0 <= j < vs.len() && vs[j] == props@[k];
            assert(representa(vs[j].0@, sense_ordenar[j]));
            assert(sense_ordenar.to_multiset().count(sense_ordenar[j]) > 0);
            assert(horaris@.contains(sense_ordenar[j]));
            let i = choose|i: int| 0 <= i < horaris@.len() && horaris@[i] == sense_ordenar[j];
            assert(graella_de(c, k, horaris@[i]));
        }
    }
    Ok(Resultat { horaris, combinacions: total, valids })
}

} // verus!
