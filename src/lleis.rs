//! Laws of the ranking of timetables.
use vstd::prelude::*;
use core::cmp::Ordering;
use crate::enumera::{combinacions, lemma_producte_positiu, lemma_xifres_distintes, xifra, totes_amb_grups};
use crate::horari::{compara, equivalents, Horari};
use crate::model::AssignaturaParse;
use crate::ordena::{estructura_ok, nombre_valides, valida};

verus! {

/// The ranking is total and antisymmetric: of "`a` is better", "`b` is
/// better" and "they agree on every criterion" exactly one holds, and `a`
/// ranks below `b` exactly when `b` ranks above `a`.
pub proof fn lemma_compara_total(a: Horari, b: Horari)
    ensures
        compara(a, b) == Ordering::Greater || compara(b, a) == Ordering::Greater
            || equivalents(a, b),
        !(compara(a, b) == Ordering::Greater && compara(b, a) == Ordering::Greater),
        !(compara(a, b) == Ordering::Greater && equivalents(a, b)),
        !(compara(b, a) == Ordering::Greater && equivalents(a, b)),
        compara(a, b) == Ordering::Equal <==> equivalents(a, b),
        compara(a, b) == Ordering::Less <==> compara(b, a) == Ordering::Greater,
{
}

/// The ranking is transitive, both as "better than" and as "at least as
/// good as", and a strict step followed by a weak one stays strict.
pub proof fn lemma_compara_transitiva(a: Horari, b: Horari, c: Horari)
    ensures
        compara(a, b) == Ordering::Greater && compara(b, c) == Ordering::Greater ==> compara(a, c)
            == Ordering::Greater,
        compara(a, b) != Ordering::Less && compara(b, c) != Ordering::Less ==> compara(a, c)
            != Ordering::Less,
        compara(a, b) == Ordering::Greater && compara(b, c) != Ordering::Less ==> compara(a, c)
            == Ordering::Greater,
        compara(a, b) != Ordering::Less && compara(b, c) == Ordering::Greater ==> compara(a, c)
            == Ordering::Greater,
        equivalents(a, b) && equivalents(b, c) ==> equivalents(a, c),
{
}

/// Each criterion decides alone once the earlier ones tie, whatever the later
/// ones say: fewer late-starting weekdays first, then fewer lecture/lab pairs
/// of one course and one group family, then having a free weekday, then more
/// classes in the foreign language.
pub proof fn lemma_criteris_per_ordre(a: Horari, b: Horari)
    ensures
        a.dies_tard() < b.dies_tard() ==> compara(a, b) == Ordering::Greater,
        a.dies_tard() == b.dies_tard() && a.desajustos() < b.desajustos() ==> compara(a, b)
            == Ordering::Greater,
        a.dies_tard() == b.dies_tard() && a.desajustos() == b.desajustos() && a.te_lliure()
            && !b.te_lliure() ==> compara(a, b) == Ordering::Greater,
        a.dies_tard() == b.dies_tard() && a.desajustos() == b.desajustos() && a.te_lliure()
            == b.te_lliure() && a.angles() > b.angles() ==> compara(a, b) == Ordering::Greater,
{
}

/// When every course offers a group there is at least one choice, and two
/// different choice numbers take different groups for some course: the
/// choices are pairwise distinct tuples, as many as the product of the group
/// counts.
pub proof fn lemma_combinacions_distintes(c: Seq<AssignaturaParse>, k1: int, k2: int)
    requires
        totes_amb_grups(c),
        0 <= k1 < combinacions(c),
        0 <= k2 < combinacions(c),
        k1 != k2,
    ensures
        combinacions(c) > 0,
        exists|t: int|
            0 <= t < c.len() && xifra(c, c.len() as int, k1, t) != xifra(c, c.len() as int, k2, t),
{
    lemma_producte_positiu(c, 0, c.len() as int);
    lemma_xifres_distintes(c, c.len() as int, k1, k2);
}

/// A list that can be planned and whose every choice collides still has
/// choices to try, and none of them is kept.
pub proof fn lemma_cap_valida(c: Seq<AssignaturaParse>)
    requires
        estructura_ok(c),
        forall|k: int| 0 <= k < combinacions(c) ==> !#[trigger] valida(c, k),
    ensures
        combinacions(c) > 0,
        nombre_valides(c, combinacions(c)) == 0,
{
    lemma_producte_positiu(c, 0, c.len() as int);
    lemma_cap_valida_fins(c, combinacions(c));
}

proof fn lemma_cap_valida_fins(c: Seq<AssignaturaParse>, m: int)
    requires
        forall|k: int| 0 <= k < m ==> !#[trigger] valida(c, k),
    ensures
        nombre_valides(c, m) == 0,
    decreases m,
{
    if m > 0 {
        lemma_cap_valida_fins(c, m - 1);
    }
}

} // verus!
