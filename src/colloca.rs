//! Placing a choice of groups on the weekly grid.
use vstd::prelude::*;
use crate::horari::{Day, Horari};
use crate::model::{AssigDisplay, ProtoHorari, SelectedAssig};

verus! {

/// Session `s` of the group chosen in position `i` of `sel` takes hour `hora`
/// of weekday `d`.
pub open spec fn cobreix(sel: Seq<SelectedAssig>, i: int, s: int, d: int, hora: int) -> bool {
    &&& 0 <= i < sel.len()
    &&& 0 <= s < sel[i].grup.sessions@.len()
    &&& sel[i].grup.sessions@[s].dia.index_spec() == d
    &&& sel[i].grup.sessions@[s].start <= hora < sel[i].grup.sessions@[s].finish
}

/// No two sessions of the choice take the same hour of the same weekday.
pub open spec fn sense_conflictes(sel: Seq<SelectedAssig>) -> bool {
    forall|i1: int, s1: int, i2: int, s2: int, d: int, hora: int|
        #![trigger cobreix(sel, i1, s1, d, hora), cobreix(sel, i2, s2, d, hora)]
        cobreix(sel, i1, s1, d, hora) && cobreix(sel, i2, s2, d, hora) ==> i1 == i2 && s1 == s2
}

/// What a cell taken by the chosen group `a` shows.
pub open spec fn entrada(a: SelectedAssig) -> AssigDisplay {
    AssigDisplay { nom: a.nom, grup: a.grup.num, llengua: a.grup.llengua, kind: a.kind }
}

/// `h` is the grid of the choice `sel`: every hour of every session shows its
/// group, and every occupied cell is an hour of some session.
pub open spec fn representa(sel: Seq<SelectedAssig>, h: Horari) -> bool {
    &&& forall|i: int, s: int, d: int, hora: int|
        #[trigger] cobreix(sel, i, s, d, hora) ==> h.cella(d, hora - 8) == Some(entrada(sel[i]))
    &&& forall|d: int, k: int|
        0 <= d < 5 && 0 <= k < 6 && (#[trigger] h.cella(d, k)) is Some ==> exists|i: int, s: int|
            #[trigger] cobreix(sel, i, s, d, k + 8)
}

/// Session `(i, s)` comes before session `(i0, s0)` in the order of placement.
pub open spec fn abans(i: int, s: int, i0: int, s0: int) -> bool {
    i < i0 || (i == i0 && s < s0)
}

/// The grid holds exactly the sessions placed before `(i0, s0)`, and those
/// sessions do not collide.
pub open spec fn parcial(sel: Seq<SelectedAssig>, h: Horari, i0: int, s0: int) -> bool {
    &&& forall|i: int, s: int, d: int, hora: int|
        abans(i, s, i0, s0) && #[trigger] cobreix(sel, i, s, d, hora) ==> h.cella(d, hora - 8)
            == Some(entrada(sel[i]))
    &&& forall|d: int, k: int|
        0 <= d < 5 && 0 <= k < 6 && (#[trigger] h.cella(d, k)) is Some ==> exists|i: int, s: int|
            abans(i, s, i0, s0) && #[trigger] cobreix(sel, i, s, d, k + 8)
    &&& forall|i1: int, s1: int, i2: int, s2: int, d: int, hora: int|
        #![trigger cobreix(sel, i1, s1, d, hora), cobreix(sel, i2, s2, d, hora)]
        abans(i1, s1, i0, s0) && abans(i2, s2, i0, s0) && cobreix(sel, i1, s1, d, hora)
            && cobreix(sel, i2, s2, d, hora) ==> i1 == i2 && s1 == s2
}

impl Day {
    /// A day with every slot free.
    pub fn buit() -> (r: Day)
        ensures
            forall|k: int| 0 <= k < 6 ==> (#[trigger] r.0@[k]) is None,
    {
        Day([None, None, None, None, None, None])
    }
}

impl Default for Day {
    /// A day with every slot free.
    fn default() -> (r: Day)
        ensures
            forall|k: int| 0 <= k < 6 ==> (#[trigger] r.0@[k]) is None,
    {
        Day::buit()
    }
}

impl Default for Horari {
    /// A week with every slot free.
    fn default() -> (r: Horari)
        ensures
            forall|d: int, k: int| 0 <= d < 5 && 0 <= k < 6 ==> (#[trigger] r.cella(d, k)) is None,
    {
        Horari::buit()
    }
}

impl Horari {
    /// A week with every slot free.
    pub fn buit() -> (r: Horari)
        ensures
            forall|d: int, k: int| 0 <= d < 5 && 0 <= k < 6 ==> (#[trigger] r.cella(d, k)) is None,
    {
        Horari([Day::buit(), Day::buit(), Day::buit(), Day::buit(), Day::buit()])
    }

    /// The grid of a choice taken by value: see `colloca`.
    pub fn try_from(value: ProtoHorari) -> (r: Result<Horari, ()>)
        requires
            value.wf(),
        ensures
            r is Ok <==> sense_conflictes(value.0@),
            r matches Ok(h) ==> representa(value.0@, h),
    {
        Horari::colloca(&value)
    }

    /// Places every hour of every session of every chosen group. Fails when
    /// two of them claim the same cell.
    pub fn colloca(value: &ProtoHorari) -> (r: Result<Horari, ()>)
        requires
            value.wf(),
        ensures
            r is Ok <==> sense_conflictes(value.0@),
            r matches Ok(h) ==> representa(value.0@, h),
    {
        let ghost sel = value.0@;
        let mut h = Horari::buit();
        let mut i: usize = 0;
        while i < value.0.len()
            invariant
                value.wf(),
                sel == value.0@,
                0 <= i <= sel.len(),
                parcial(sel, h, i as int, 0),
            decreases sel.len() - i,
        {
            let a = &value.0[i];
            let mut s: usize = 0;
            while s < a.grup.sessions.len()
                invariant
                    value.wf(),
                    sel == value.0@,
                    0 <= i < sel.len(),
                    *a == sel[i as int],
                    0 <= s <= a.grup.sessions@.len(),
                    parcial(sel, h, i as int, s as int),
                decreases a.grup.sessions@.len() - s,
            {
                let ses = a.grup.sessions[s];
                assert(a.grup.wf());
                assert(ses.wf());
                let d = ses.dia.index();
                let mut hora: u32 = ses.start;
                while hora < ses.finish
                    invariant
                        sel == value.0@,
                        0 <= i < sel.len(),
                        0 <= s < sel[i as int].grup.sessions@.len(),
                        *a == sel[i as int],
                        parcial(sel, h, i as int, s as int),
                        ses == sel[i as int].grup.sessions@[s as int],
                        ses.wf(),
                        d == ses.dia.index_spec(),
                        ses.start <= hora <= ses.finish,
                        forall|x: int|
                            ses.start <= x < hora ==> (#[trigger] h.cella(d as int, x - 8)) is None,
                    decreases ses.finish - hora,
                {
                    if h.0[d].0[(hora - 8) as usize].is_some() {
                        proof {
                            let k = hora - 8;
                            assert(h.cella(d as int, k as int) is Some);
                            assert(0 <= d < 5 && 0 <= k < 6);
                            let (wi, ws) = choose|wi: int, ws: int|
                                abans(wi, ws, i as int, s as int) && #[trigger] cobreix(
                                    sel,
                                    wi,
                                    ws,
                                    d as int,
                                    k + 8,
                                );
                            assert(cobreix(sel, i as int, s as int, d as int, hora as int));
                            assert(cobreix(sel, wi, ws, d as int, hora as int));
                            assert(!(wi == i && ws == s));
                            assert(!sense_conflictes(sel));
                        }
                        return Err(());
                    }
                    hora += 1;
                }
                let ghost h0 = h;
                let mut hora: u32 = ses.start;
                while hora < ses.finish
                    invariant
                        0 <= i < sel.len(),
                        0 <= s < sel[i as int].grup.sessions@.len(),
                        *a == sel[i as int],
                        parcial(sel, h0, i as int, s as int),
                        ses == sel[i as int].grup.sessions@[s as int],
                        ses.wf(),
                        d == ses.dia.index_spec(),
                        ses.start <= hora <= ses.finish,
                        forall|x: int|
                            ses.start <= x < ses.finish ==> (#[trigger] h0.cella(d as int, x - 8))
                                is None,
                        forall|dd: int, k: int|
                            0 <= dd < 5 && 0 <= k < 6 ==> (#[trigger] h.cella(dd, k)) == if dd == d
                                && ses.start <= k + 8 < hora {
                                Some(entrada(*a))
                            } else {
                                h0.cella(dd, k)
                            },
                    decreases ses.finish - hora,
                {
                    let e = AssigDisplay {
                        nom: a.nom.clone(),
                        grup: a.grup.num,
                        llengua: a.grup.llengua,
                        kind: a.kind,
                    };
                    let ghost hprev = h;
                    h.0[d].0[(hora - 8) as usize] = Some(e);
                    assert(forall|dd: int, k: int|
                        0 <= dd < 5 && 0 <= k < 6 ==> (#[trigger] h.cella(dd, k)) == if dd == d
                            && k == hora - 8 {
                            Some(entrada(*a))
                        } else {
                            hprev.cella(dd, k)
                        });
                    hora += 1;
                }
                proof {
                    let i0 = i as int;
                    let s0 = s as int;
                    assert forall|i1: int, s1: int, dd: int, hr: int|
                        abans(i1, s1, i0, s0 + 1) && #[trigger] cobreix(sel, i1, s1, dd, hr)
                        implies h.cella(dd, hr - 8) == Some(entrada(sel[i1])) by {
                        if abans(i1, s1, i0, s0) {
                            assert(h0.cella(dd, hr - 8) == Some(entrada(sel[i1])));
                        }
                    }
                    assert forall|dd: int, k: int|
                        0 <= dd < 5 && 0 <= k < 6 && (#[trigger] h.cella(dd, k)) is Some
                        implies exists|i1: int, s1: int|
                        abans(i1, s1, i0, s0 + 1) && #[trigger] cobreix(sel, i1, s1, dd, k + 8) by {
                        if dd == d && ses.start <= k + 8 < ses.finish {
                            assert(cobreix(sel, i0, s0, dd, k + 8));
                        } else {
                            assert(h0.cella(dd, k) is Some);
                        }
                    }
                    assert forall|i1: int, s1: int, i2: int, s2: int, dd: int, hr: int|
                        abans(i1, s1, i0, s0 + 1) && abans(i2, s2, i0, s0 + 1) && #[trigger] cobreix(
                            sel,
                            i1,
                            s1,
                            dd,
                            hr,
                        ) && #[trigger] cobreix(sel, i2, s2, dd, hr) implies i1 == i2 && s1 == s2 by {
                        if abans(i1, s1, i0, s0) && !abans(i2, s2, i0, s0) {
                            assert(h0.cella(dd, hr - 8) is Some);
                        } else if !abans(i1, s1, i0, s0) && abans(i2, s2, i0, s0) {
                            assert(h0.cella(dd, hr - 8) is Some);
                        }
                    }
                }
                s += 1;
            }
            proof {
                let i0 = i as int;
                let n = a.grup.sessions@.len() as int;
                assert forall|i1: int, s1: int| #[trigger] abans(i1, s1, i0 + 1, 0) && 0 <= s1 && (
                i1 == i0 ==> s1 < n) implies abans(i1, s1, i0, n) by {}
            }
            i += 1;
        }
        assert(representa(sel, h));
        Ok(h)
    }
}

} // verus!
