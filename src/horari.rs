//! The weekly grid and the criteria by which two grids are ranked.
use vstd::prelude::*;
use core::cmp::Ordering;
use crate::model::{AssigDisplay, AssigKind, Llengua};

verus! {

/// The six hourly slots of one weekday; slot `k` starts at hour `8 + k`.
#[derive(Debug, Clone)]
pub struct Day(pub [Option<AssigDisplay>; 6]);

/// A weekly timetable: five weekdays, Monday first.
#[derive(Debug, Clone)]
pub struct Horari(pub [Day; 5]);

/// The placed entries of the first `m` slots of a day, in slot order.
pub open spec fn entrades_dia(day: Seq<Option<AssigDisplay>>, m: int) -> Seq<AssigDisplay>
    decreases m,
{
    if m <= 0 {
        seq![]
    } else {
        let r = entrades_dia(day, m - 1);
        match day[m - 1] {
            Some(e) => r.push(e),
            None => r,
        }
    }
}

/// How many entries of `es` are taught in the foreign language.
pub open spec fn angles_en(es: Seq<AssigDisplay>) -> nat
    decreases es.len(),
{
    if es.len() == 0 {
        0
    } else {
        angles_en(es.drop_last()) + if es.last().llengua == Llengua::Angles {
            1nat
        } else {
            0nat
        }
    }
}

/// Two entries of the same course, one lecture and one lab, whose group
/// numbers are of one family (a family is the group number divided by 10).
pub open spec fn desajust(x: AssigDisplay, y: AssigDisplay) -> bool {
    &&& x.nom@ == y.nom@
    &&& x.kind is Some
    &&& y.kind is Some
    &&& x.kind != y.kind
    &&& x.grup / 10 == y.grup / 10
}

/// How many entries `y` of `es` make `desajust(x, y)`.
pub open spec fn desajustos_amb(x: AssigDisplay, es: Seq<AssigDisplay>) -> nat
    decreases es.len(),
{
    if es.len() == 0 {
        0
    } else {
        desajustos_amb(x, es.drop_last()) + if desajust(x, es.last()) {
            1nat
        } else {
            0nat
        }
    }
}

/// How many ordered pairs `(x, y)`, with `x` from `xs` and `y` from `es`, make
/// `desajust(x, y)`.
pub open spec fn desajustos_parells(xs: Seq<AssigDisplay>, es: Seq<AssigDisplay>) -> nat
    decreases xs.len(),
{
    if xs.len() == 0 {
        0
    } else {
        desajustos_parells(xs.drop_last(), es) + desajustos_amb(xs.last(), es)
    }
}

impl Horari {
    /// The cell of weekday `d` and slot `k`.
    pub open spec fn cella(self, d: int, k: int) -> Option<AssigDisplay> {
        self.0@[d].0@[k]
    }

    /// How many of the first `n` weekdays have an empty first slot.
    pub open spec fn dies_tard_fins(self, n: int) -> nat
        decreases n,
    {
        if n <= 0 {
            0
        } else {
            self.dies_tard_fins(n - 1) + if self.cella(n - 1, 0) is None {
                1nat
            } else {
                0nat
            }
        }
    }

    /// Number of weekdays that do not start at 8.
    pub open spec fn dies_tard(self) -> nat {
        self.dies_tard_fins(5)
    }

    /// Some weekday has its first slot taken.
    pub open spec fn comenca_vuit(self) -> bool {
        exists|d: int| 0 <= d < 5 && (#[trigger] self.cella(d, 0)) is Some
    }

    /// Weekday `d` has no class at all.
    pub open spec fn dia_lliure(self, d: int) -> bool {
        forall|k: int| 0 <= k < 6 ==> (#[trigger] self.cella(d, k)) is None
    }

    /// Some weekday has no class at all.
    pub open spec fn te_lliure(self) -> bool {
        exists|d: int| 0 <= d < 5 && #[trigger] self.dia_lliure(d)
    }

    /// The placed entries of the first `n` weekdays, day by day, slot by slot.
    pub open spec fn entrades_fins(self, n: int) -> Seq<AssigDisplay>
        decreases n,
    {
        if n <= 0 {
            seq![]
        } else {
            self.entrades_fins(n - 1) + entrades_dia(self.0@[n - 1].0@, 6)
        }
    }

    /// Every placed entry of the week, day by day, slot by slot.
    pub open spec fn entrades(self) -> Seq<AssigDisplay> {
        self.entrades_fins(5)
    }

    /// Number of occupied slots taught in the foreign language.
    pub open spec fn angles(self) -> nat {
        angles_en(self.entrades())
    }

    /// Number of ordered pairs of placed entries of one course, one lecture and
    /// one lab, whose group numbers are of one family.
    pub open spec fn desajustos(self) -> nat {
        desajustos_parells(self.entrades(), self.entrades())
    }
}


/// The entries that a sequence of references points to.
pub open spec fn valors(s: Seq<&AssigDisplay>) -> Seq<AssigDisplay> {
    s.map_values(|e: &AssigDisplay| *e)
}

/// The entries of the first `m` slots of a day are at most `m`.
pub proof fn lemma_entrades_dia_len(day: Seq<Option<AssigDisplay>>, m: int)
    requires
        0 <= m,
    ensures
        entrades_dia(day, m).len() <= m,
    decreases m,
{
    if m > 0 {
        lemma_entrades_dia_len(day, m - 1);
    }
}

/// Executable form of `desajust`.
fn es_desajust(x: &AssigDisplay, y: &AssigDisplay) -> (r: bool)
    ensures
        r == desajust(*x, *y),
{
    match (x.kind, y.kind) {
        (Some(a), Some(b)) => a != b && x.grup / 10 == y.grup / 10 && x.nom == y.nom,
        _ => false,
    }
}

impl Horari {
    /// The entries of the first `n` weekdays are at most six per day.
    pub proof fn lemma_entrades_fins_len(self, n: int)
        requires
            0 <= n <= 5,
        ensures
            self.entrades_fins(n).len() <= 6 * n,
        decreases n,
    {
        if n > 0 {
            self.lemma_entrades_fins_len(n - 1);
            lemma_entrades_dia_len(self.0@[n - 1].0@, 6);
        }
    }

    /// Some weekday has a class at 8.
    pub fn comenca_a_les_vuit(&self) -> (r: bool)
        ensures
            r == self.comenca_vuit(),
    {
        let mut d: usize = 0;
        while d < 5
            invariant
                0 <= d <= 5,
                forall|e: int| 0 <= e < d ==> (#[trigger] self.cella(e, 0)) is None,
            decreases 5 - d,
        {
            if self.0[d].0[0].is_some() {
                assert(self.cella(d as int, 0) is Some);
                return true;
            }
            d += 1;
        }
        false
    }

    /// Number of weekdays whose 8 o'clock slot is empty.
    pub fn quants_dies_comenca_tard(&self) -> (r: usize)
        ensures
            r == self.dies_tard(),
            r <= 5,
    {
        let mut cnt: usize = 0;
        let mut d: usize = 0;
        while d < 5
            invariant
                0 <= d <= 5,
                cnt == self.dies_tard_fins(d as int),
                cnt <= d,
            decreases 5 - d,
        {
            if self.0[d].0[0].is_none() {
                cnt += 1;
            }
            d += 1;
        }
        cnt
    }

    /// Some weekday has no class at all.
    pub fn te_dia_lliure(&self) -> (r: bool)
        ensures
            r == self.te_lliure(),
    {
        let mut d: usize = 0;
        while d < 5
            invariant
                0 <= d <= 5,
                forall|e: int| 0 <= e < d ==> !(#[trigger] self.dia_lliure(e)),
            decreases 5 - d,
        {
            let mut k: usize = 0;
            let mut buit = true;
            while k < 6
                invariant
                    0 <= d < 5,
                    0 <= k <= 6,
                    buit == (forall|m: int| 0 <= m < k ==> (#[trigger] self.cella(d as int, m)) is None),
                decreases 6 - k,
            {
                let ocupada = self.0[d].0[k].is_some();
                assert(ocupada == self.cella(d as int, k as int) is Some);
                if ocupada {
                    buit = false;
                }
                k += 1;
            }
            if buit {
                assert(self.dia_lliure(d as int));
                return true;
            }
            d += 1;
        }
        false
    }

    /// Every placed entry, day by day, slot by slot.
    pub fn as_iter(&self) -> (r: Vec<&AssigDisplay>)
        ensures
            valors(r@) == self.entrades(),
            r@.len() <= 30,
    {
        let mut out: Vec<&AssigDisplay> = Vec::new();
        let mut d: usize = 0;
        while d < 5
            invariant
                0 <= d <= 5,
                valors(out@) == self.entrades_fins(d as int),
            decreases 5 - d,
        {
            let mut k: usize = 0;
            while k < 6
                invariant
                    0 <= d < 5,
                    0 <= k <= 6,
                    valors(out@) == self.entrades_fins(d as int) + entrades_dia(
                        self.0@[d as int].0@,
                        k as int,
                    ),
                decreases 6 - k,
            {
                let ghost prev = valors(out@);
                match &self.0[d].0[k] {
                    Some(e) => {
                        out.push(e);
                        assert(valors(out@) =~= prev.push(*e));
                    },
                    None => {},
                }
                assert(valors(out@) =~= self.entrades_fins(d as int) + entrades_dia(
                    self.0@[d as int].0@,
                    k + 1,
                ));
                k += 1;
            }
            assert(valors(out@) =~= self.entrades_fins(d + 1));
            d += 1;
        }
        proof {
            self.lemma_entrades_fins_len(5);
        }
        out
    }

    /// Number of occupied slots taught in the foreign language.
    pub fn num_classes_angles(&self) -> (r: usize)
        ensures
            r == self.angles(),
            r <= 30,
    {
        let es = self.as_iter();
        let ghost vs = valors(es@);
        let mut cnt: usize = 0;
        let mut i: usize = 0;
        while i < es.len()
            invariant
                vs == valors(es@),
                vs == self.entrades(),
                es@.len() <= 30,
                0 <= i <= es@.len(),
                cnt == angles_en(vs.take(i as int)),
                cnt <= i,
            decreases es@.len() - i,
        {
            assert(vs.take(i + 1).drop_last() =~= vs.take(i as int));
            if es[i].llengua == Llengua::Angles {
                cnt += 1;
            }
            i += 1;
        }
        assert(vs.take(es@.len() as int) =~= vs);
        cnt
    }

    /// Number of ordered pairs of placed entries of one course, one lecture and
    /// one lab, whose group numbers are of one family.
    pub fn grups_same_teoria_lab(&self) -> (r: usize)
        ensures
            r == self.desajustos(),
            r <= 900,
    {
        let es = self.as_iter();
        let ghost vs = valors(es@);
        let n = es.len();
        let mut cnt: usize = 0;
        let mut i: usize = 0;
        while i < n
            invariant
                vs == valors(es@),
                vs == self.entrades(),
                n == es@.len(),
                n <= 30,
                0 <= i <= n,
                cnt == desajustos_parells(vs.take(i as int), vs),
                cnt <= 30 * i,
            decreases n - i,
        {
            assert(vs.take(i + 1).drop_last() =~= vs.take(i as int));
            let mut j: usize = 0;
            while j < n
                invariant
                    vs == valors(es@),
                    vs == self.entrades(),
                    n == es@.len(),
                    n <= 30,
                    0 <= i < n,
                    0 <= j <= n,
                    cnt == desajustos_parells(vs.take(i as int), vs) + desajustos_amb(
                        vs[i as int],
                        vs.take(j as int),
                    ),
                    cnt <= 30 * i + j,
                decreases n - j,
            {
                assert(vs.take(j + 1).drop_last() =~= vs.take(j as int));
                if es_desajust(es[i], es[j]) {
                    cnt += 1;
                }
                j += 1;
            }
            assert(vs.take(n as int) =~= vs);
            i += 1;
        }
        assert(vs.take(n as int) =~= vs);
        cnt
    }
}

/// The ranking of two timetables: `Greater` when `a` is the better one.
/// Criteria, first to last, each one deciding only when the earlier ones tie:
/// fewer weekdays without a class at 8; fewer lecture/lab pairs of one
/// course and one group family;
/// having a weekday without classes; more slots taught in the foreign
/// language.
pub open spec fn compara(a: Horari, b: Horari) -> Ordering {
    if a.dies_tard() != b.dies_tard() {
        if a.dies_tard() < b.dies_tard() {
            Ordering::Greater
        } else {
            Ordering::Less
        }
    } else if a.desajustos() != b.desajustos() {
        if a.desajustos() < b.desajustos() {
            Ordering::Greater
        } else {
            Ordering::Less
        }
    } else if a.te_lliure() != b.te_lliure() {
        if a.te_lliure() {
            Ordering::Greater
        } else {
            Ordering::Less
        }
    } else if a.angles() != b.angles() {
        if a.angles() > b.angles() {
            Ordering::Greater
        } else {
            Ordering::Less
        }
    } else {
        Ordering::Equal
    }
}

/// The two timetables agree on all four criteria.
pub open spec fn equivalents(a: Horari, b: Horari) -> bool {
    &&& a.dies_tard() == b.dies_tard()
    &&& a.desajustos() == b.desajustos()
    &&& a.te_lliure() == b.te_lliure()
    &&& a.angles() == b.angles()
}

impl Horari {
    /// Ranks `self` against `other`: `Greater` when `self` is the better one,
    /// so that sorting in descending order puts the best timetable first.
    pub fn cmp(&self, other: &Horari) -> (r: Ordering)
        ensures
            r == compara(*self, *other),
    {
        let (ta, tb) = (self.quants_dies_comenca_tard(), other.quants_dies_comenca_tard());
        if ta != tb {
            return if ta < tb {
                Ordering::Greater
            } else {
                Ordering::Less
            };
        }
        let (da, db) = (self.grups_same_teoria_lab(), other.grups_same_teoria_lab());
        if da != db {
            return if da < db {
                Ordering::Greater
            } else {
                Ordering::Less
            };
        }
        let (la, lb) = (self.te_dia_lliure(), other.te_dia_lliure());
        if la != lb {
            return if la {
                Ordering::Greater
            } else {
                Ordering::Less
            };
        }
        let (aa, ab) = (self.num_classes_angles(), other.num_classes_angles());
        if aa != ab {
            return if aa > ab {
                Ordering::Greater
            } else {
                Ordering::Less
            };
        }
        Ordering::Equal
    }
}

impl PartialEq for Horari {
    /// Two timetables are equal when they rank the same.
    fn eq(&self, other: &Horari) -> (r: bool)
        ensures
            r == equivalents(*self, *other),
    {
        match self.cmp(other) {
            Ordering::Equal => true,
            _ => false,
        }
    }
}

impl vstd::std_specs::cmp::PartialEqSpecImpl for Horari {
    open spec fn obeys_eq_spec() -> bool {
        true
    }

    open spec fn eq_spec(&self, other: &Horari) -> bool {
        equivalents(*self, *other)
    }
}

impl Eq for Horari {
}

impl PartialOrd for Horari {
    fn partial_cmp(&self, other: &Horari) -> (r: Option<Ordering>)
        ensures
            r == Some(compara(*self, *other)),
    {
        Some(self.cmp(other))
    }
}

impl vstd::std_specs::cmp::PartialOrdSpecImpl for Horari {
    open spec fn obeys_partial_cmp_spec() -> bool {
        true
    }

    open spec fn partial_cmp_spec(&self, other: &Horari) -> Option<Ordering> {
        Some(compara(*self, *other))
    }
}

} // verus!
