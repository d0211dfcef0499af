//! Reading the list of courses from its text form.
//!
//! The text is a sequence of courses. A course is a line with its name (a
//! trailing `_L` marks a lab, `_T` a lecture) followed by its groups. A group
//! is a comma-separated list of group numbers, a language (`catala`,
//! `castella` or `angles`) and one or more sessions; a session is a weekday
//! (`dilluns` .. `divendres`) and two hours, start and finish. Whitespace
//! separates the parts.
//!
//! The canonical form of a list writes each course as its name line followed
//! by one line per group: the group number, its language and its sessions,
//! all separated by single spaces. Reading a canonical text gives back a list
//! with the same canonical form.
use vstd::prelude::*;
use vstd::string::StrSliceExecFns;
use crate::enumera::opcions;
use crate::taula::{car_xifra, decimal};
use crate::model::{AssigKind, AssignaturaParse, DiaSetmana, Grup, Llengua, Sessio};

verus! {

/// A character that separates the parts of the text.
pub open spec fn es_espai(c: char) -> bool {
    c == ' ' || c == '\t' || c == '\n' || c == '\r'
}

/// A decimal digit.
pub open spec fn es_digit(c: char) -> bool {
    '0' <= c <= '9'
}

/// The number that a sequence of decimal digits writes.
pub open spec fn valor_digits(s: Seq<char>) -> int
    decreases s.len(),
{
    if s.len() == 0 {
        0
    } else {
        valor_digits(s.drop_last()) * 10 + (s.last() as int - '0' as int)
    }
}

/// Where the run of digits that starts at `pos` ends.
pub open spec fn fi_digits(t: Seq<char>, pos: int) -> int
    decreases t.len() - pos,
{
    if 0 <= pos < t.len() && es_digit(t[pos]) {
        fi_digits(t, pos + 1)
    } else {
        pos
    }
}

/// The characters of a text.
fn caracters(text: &str) -> (r: Vec<char>)
    ensures
        r@ == text@,
{
    let n = text.unicode_len();
    let mut r: Vec<char> = Vec::new();
    let mut i: usize = 0;
    while i < n
        invariant
            n == text@.len(),
            0 <= i <= n,
            r@ == text@.take(i as int),
        decreases n - i,
    {
        r.push(text.get_char(i));
        assert(r@ =~= text@.take(i + 1));
        i += 1;
    }
    assert(text@.take(n as int) =~= text@);
    r
}

/// The first position at or after `pos` that is not whitespace.
fn salta_espais(t: &Vec<char>, pos: usize) -> (r: usize)
    requires
        pos <= t@.len(),
    ensures
        pos <= r <= t@.len(),
        forall|i: int| pos <= i < r ==> es_espai(#[trigger] t@[i]),
        r == t@.len() || !es_espai(t@[r as int]),
{
    let mut p = pos;
    while p < t.len() && (t[p] == ' ' || t[p] == '\t' || t[p] == '\n' || t[p] == '\r')
        invariant
            pos <= p <= t@.len(),
            forall|i: int| pos <= i < p ==> es_espai(#[trigger] t@[i]),
        decreases t@.len() - p,
    {
        p += 1;
    }
    p
}

/// The run of digits of `t` that starts at `pos` ends where the run that
/// starts one further ends.
proof fn lemma_fi_digits(t: Seq<char>, pos: int)
    requires
        0 <= pos <= t.len(),
    ensures
        pos <= fi_digits(t, pos) <= t.len(),
        forall|i: int| pos <= i < fi_digits(t, pos) ==> es_digit(#[trigger] t[i]),
        fi_digits(t, pos) == t.len() || !es_digit(t[fi_digits(t, pos)]),
    decreases t.len() - pos,
{
    if pos < t.len() && es_digit(t[pos]) {
        lemma_fi_digits(t, pos + 1);
    }
}

/// Extending a run of digits never makes its value smaller.
proof fn lemma_valor_creix(t: Seq<char>, a: int, b: int, c: int)
    requires
        0 <= a <= b <= c <= t.len(),
        forall|i: int| a <= i < c ==> es_digit(#[trigger] t[i]),
    ensures
        valor_digits(t.subrange(a, b)) <= valor_digits(t.subrange(a, c)),
        0 <= valor_digits(t.subrange(a, b)),
    decreases c - b,
{
    if b < c {
        lemma_valor_creix(t, a, b, c - 1);
        assert(t.subrange(a, c).drop_last() =~= t.subrange(a, c - 1));
        assert(es_digit(t[c - 1]));
    } else {
        lemma_valor_positiu(t, a, b);
    }
}

proof fn lemma_valor_positiu(t: Seq<char>, a: int, b: int)
    requires
        0 <= a <= b <= t.len(),
        forall|i: int| a <= i < b ==> es_digit(#[trigger] t[i]),
    ensures
        0 <= valor_digits(t.subrange(a, b)),
    decreases b - a,
{
    if a < b {
        lemma_valor_positiu(t, a, b - 1);
        assert(t.subrange(a, b).drop_last() =~= t.subrange(a, b - 1));
        assert(es_digit(t[b - 1]));
    }
}

/// The number written by the digits at `pos`, and the position after them.
/// `None` when no digit stands at `pos` or the number does not fit in `u32`.
fn llegeix_nombre(t: &Vec<char>, pos: usize) -> (r: Option<(u32, usize)>)
    requires
        pos <= t@.len(),
    ensures
        r matches Some((n, fi)) ==> {
            &&& fi == fi_digits(t@, pos as int)
            &&& pos < fi <= t@.len()
            &&& n == valor_digits(t@.subrange(pos as int, fi as int))
        },
        r is None <==> (fi_digits(t@, pos as int) == pos || valor_digits(
            t@.subrange(pos as int, fi_digits(t@, pos as int)),
        ) > u32::MAX),
{
    proof {
        lemma_fi_digits(t@, pos as int);
    }
    let ghost fi = fi_digits(t@, pos as int);
    let mut p = pos;
    let mut n: u32 = 0;
    while p < t.len() && '0' <= t[p] && t[p] <= '9'
        invariant
            pos <= p <= fi,
            fi == fi_digits(t@, pos as int),
            fi <= t@.len(),
            forall|i: int| pos <= i < fi ==> es_digit(#[trigger] t@[i]),
            fi == t@.len() || !es_digit(t@[fi]),
            n == valor_digits(t@.subrange(pos as int, p as int)),
        decreases t@.len() - p,
    {
        assert(t@.subrange(pos as int, p + 1).drop_last() =~= t@.subrange(pos as int, p as int));
        let d = (t[p] as u32) - ('0' as u32);
        if n > (u32::MAX - d) / 10 {
            proof {
                lemma_valor_creix(t@, pos as int, p + 1, fi);
            }
            return None;
        }
        n = n * 10 + d;
        p += 1;
    }
    if p == pos {
        return None;
    }
    Some((n, p))
}

/// The characters of `w` stand in `t` at `pos`.
pub open spec fn hi_ha(t: Seq<char>, pos: int, w: Seq<char>) -> bool {
    pos + w.len() <= t.len() && t.subrange(pos, pos + w.len()) == w
}

/// Whether the word `w` stands in `t` at `pos`, and if so the position after
/// it.
fn coincideix(t: &Vec<char>, pos: usize, w: &str) -> (r: Option<usize>)
    requires
        pos <= t@.len(),
    ensures
        r is Some <==> hi_ha(t@, pos as int, w@),
        r matches Some(fi) ==> fi == pos + w@.len(),
{
    let n = w.unicode_len();
    if n > t.len() - pos {
        return None;
    }
    let mut i: usize = 0;
    while i < n
        invariant
            n == w@.len(),
            pos + n <= t@.len(),
            t@.len() <= usize::MAX,
            0 <= i <= n,
            t@.subrange(pos as int, pos + i) == w@.take(i as int),
        decreases n - i,
    {
        if t[pos + i] != w.get_char(i) {
            assert(t@.subrange(pos as int, pos + n)[i as int] != w@[i as int]);
            return None;
        }
        assert(t@.subrange(pos as int, pos + i + 1) =~= w@.take(i + 1));
        i += 1;
    }
    assert(w@.take(n as int) =~= w@);
    Some(pos + n)
}

/// What went wrong while reading the text.
#[derive(Debug, Clone, Copy, PartialEq, Eq, Structural)]
pub enum MotiuParse {
    /// The text holds no course.
    CapAssignatura,
    /// A course line is followed by no group.
    SenseGrups,
    /// A group number or an hour is missing or does not fit in 32 bits.
    NumeroInvalid,
    /// A group's language is not `catala`, `castella` or `angles`.
    LlenguaDesconeguda,
    /// A group has no session.
    SenseSessions,
    /// A session does not satisfy `8 <= start < finish <= 14`.
    HoraFora,
}

/// A reading failure and the character position at which it was found.
#[derive(Debug, Clone, Copy, PartialEq, Eq, Structural)]
pub struct ErrorParse {
    pub posicio: usize,
    pub motiu: MotiuParse,
}

/// How a weekday is written.
pub open spec fn nom_dia(d: DiaSetmana) -> Seq<char> {
    match d {
        DiaSetmana::Dilluns => "dilluns"@,
        DiaSetmana::Dimarts => "dimarts"@,
        DiaSetmana::Dimecres => "dimecres"@,
        DiaSetmana::Dijous => "dijous"@,
        DiaSetmana::Divendres => "divendres"@,
    }
}

/// How a language is written.
pub open spec fn nom_llengua(l: Llengua) -> Seq<char> {
    match l {
        Llengua::Catala => "catala"@,
        Llengua::Castella => "castella"@,
        Llengua::Angles => "angles"@,
    }
}

/// A well-formed group: its sessions are well formed and there is one.
pub open spec fn grup_ok(g: Grup) -> bool {
    g.wf() && g.sessions@.len() > 0
}

/// At most one weekday word stands at a position.
proof fn lemma_un_sol_dia(t: Seq<char>, pos: int, d1: DiaSetmana, d2: DiaSetmana)
    requires
        0 <= pos,
        hi_ha(t, pos, nom_dia(d1)),
        hi_ha(t, pos, nom_dia(d2)),
    ensures
        d1 == d2,
{
    lemma_noms_dies();
    if d1 != d2 {
        assert(t.subrange(pos, pos + nom_dia(d1).len())[2] == t.subrange(pos, pos + nom_dia(d2).len())[2]);
        assert(t.subrange(pos, pos + nom_dia(d1).len())[3] == t.subrange(pos, pos + nom_dia(d2).len())[3]);
    }
}

/// At most one language word stands at a position.
proof fn lemma_una_sola_llengua(t: Seq<char>, pos: int, l1: Llengua, l2: Llengua)
    requires
        0 <= pos,
        hi_ha(t, pos, nom_llengua(l1)),
        hi_ha(t, pos, nom_llengua(l2)),
    ensures
        l1 == l2,
{
    lemma_noms_llengues();
    if l1 != l2 {
        assert(t.subrange(pos, pos + nom_llengua(l1).len())[0] == t.subrange(pos, pos + nom_llengua(l2).len())[0]);
        assert(t.subrange(pos, pos + nom_llengua(l1).len())[2] == t.subrange(pos, pos + nom_llengua(l2).len())[2]);
    }
}

/// The weekday written at `pos`, and the position after it.
fn llegeix_dia(t: &Vec<char>, pos: usize) -> (r: Option<(DiaSetmana, usize)>)
    requires
        pos <= t@.len(),
    ensures
        r matches Some((d, fi)) ==> hi_ha(t@, pos as int, nom_dia(d)) && fi == pos + nom_dia(d).len(),
        r is None ==> forall|d: DiaSetmana| !hi_ha(t@, pos as int, #[trigger] nom_dia(d)),
        forall|d: DiaSetmana|
            #[trigger] hi_ha(t@, pos as int, nom_dia(d)) ==> (r matches Some((d2, _)) && d2 == d),
{
    let r = if let Some(fi) = coincideix(t, pos, "dilluns") {
        Some((DiaSetmana::Dilluns, fi))
    } else if let Some(fi) = coincideix(t, pos, "dimarts") {
        Some((DiaSetmana::Dimarts, fi))
    } else if let Some(fi) = coincideix(t, pos, "dimecres") {
        Some((DiaSetmana::Dimecres, fi))
    } else if let Some(fi) = coincideix(t, pos, "dijous") {
        Some((DiaSetmana::Dijous, fi))
    } else if let Some(fi) = coincideix(t, pos, "divendres") {
        Some((DiaSetmana::Divendres, fi))
    } else {
        None
    };
    proof {
        assert forall|d: DiaSetmana| #[trigger] hi_ha(t@, pos as int, nom_dia(d)) implies (r matches Some((d2, _)) && d2 == d) by {
            match r {
                Some((e, _)) => {
                    lemma_un_sol_dia(t@, pos as int, d, e);
                },
                None => {
                    match d {
                        DiaSetmana::Dilluns => {},
                        DiaSetmana::Dimarts => {},
                        DiaSetmana::Dimecres => {},
                        DiaSetmana::Dijous => {},
                        DiaSetmana::Divendres => {},
                    }
                },
            }
        }
    }
    r
}

/// The language written at `pos`, and the position after it.
fn llegeix_llengua(t: &Vec<char>, pos: usize) -> (r: Option<(Llengua, usize)>)
    requires
        pos <= t@.len(),
    ensures
        r matches Some((l, fi)) ==> hi_ha(t@, pos as int, nom_llengua(l)) && fi == pos
            + nom_llengua(l).len(),
        r is None ==> forall|l: Llengua| !hi_ha(t@, pos as int, #[trigger] nom_llengua(l)),
        forall|l: Llengua|
            #[trigger] hi_ha(t@, pos as int, nom_llengua(l)) ==> (r matches Some((l2, _)) && l2 == l),
{
    let r = if let Some(fi) = coincideix(t, pos, "catala") {
        Some((Llengua::Catala, fi))
    } else if let Some(fi) = coincideix(t, pos, "castella") {
        Some((Llengua::Castella, fi))
    } else if let Some(fi) = coincideix(t, pos, "angles") {
        Some((Llengua::Angles, fi))
    } else {
        None
    };
    proof {
        assert forall|l: Llengua| #[trigger] hi_ha(t@, pos as int, nom_llengua(l)) implies (r matches Some((l2, _)) && l2 == l) by {
            match r {
                Some((e, _)) => {
                    lemma_una_sola_llengua(t@, pos as int, l, e);
                },
                None => {
                    match l {
                        Llengua::Catala => {},
                        Llengua::Castella => {},
                        Llengua::Angles => {},
                    }
                },
            }
        }
    }
    r
}

/// How the hours of a session are written after its weekday.
pub open spec fn text_hores(s: Sessio) -> Seq<char> {
    seq![' '] + decimal(s.start as nat) + seq![' '] + decimal(s.finish as nat)
}

/// How a session is written in the canonical form of a group line.
pub open spec fn text_sessio(s: Sessio) -> Seq<char> {
    seq![' '] + nom_dia(s.dia) + text_hores(s)
}

/// How a list of sessions is written, one after the other.
pub open spec fn text_sessions(ss: Seq<Sessio>) -> Seq<char>
    decreases ss.len(),
{
    if ss.len() == 0 {
        seq![]
    } else {
        text_sessions(ss.drop_last()) + text_sessio(ss.last())
    }
}

/// The canonical line of a group: its number, its language and its sessions.
pub open spec fn text_grup(g: Grup) -> Seq<char> {
    decimal(g.num as nat) + seq![' '] + nom_llengua(g.llengua) + text_sessions(g.sessions@) + seq![
        '\n',
    ]
}

/// The canonical lines of a list of groups.
pub open spec fn text_grups(gs: Seq<Grup>) -> Seq<char>
    decreases gs.len(),
{
    if gs.len() == 0 {
        seq![]
    } else {
        text_grups(gs.drop_last()) + text_grup(gs.last())
    }
}

/// The suffix that marks a course's kind.
pub open spec fn sufix(k: Option<AssigKind>) -> Seq<char> {
    match k {
        Some(AssigKind::Lab) => seq!['_', 'L'],
        Some(AssigKind::Teoria) => seq!['_', 'T'],
        None => seq![],
    }
}

/// The canonical first line of a course.
pub open spec fn linia_nom(a: AssignaturaParse) -> Seq<char> {
    a.nom@ + sufix(a.kind) + seq!['\n']
}

/// The canonical form of a course: its name line and its group lines.
pub open spec fn text_assig(a: AssignaturaParse) -> Seq<char> {
    linia_nom(a) + text_grups(a.grups@)
}

/// The canonical form of a list of courses.
pub open spec fn text_llista(v: Seq<AssignaturaParse>) -> Seq<char>
    decreases v.len(),
{
    if v.len() == 0 {
        seq![]
    } else {
        text_llista(v.drop_last()) + text_assig(v.last())
    }
}

/// A group that its canonical line describes: its number fits in 32 bits and
/// it has well-formed sessions.
pub open spec fn grup_escrivible(g: Grup) -> bool {
    g.num <= u32::MAX && g.sessions@.len() > 0 && g.wf()
}

/// A course that its canonical form describes: a name that starts with
/// neither whitespace, a digit nor a weekday word, holds no line break, and
/// ends in `_L` or `_T` only when the kind says so; and groups that their
/// lines describe.
pub open spec fn assig_escrivible(a: AssignaturaParse) -> bool {
    &&& a.nom@.len() > 0
    &&& !es_espai(a.nom@[0])
    &&& !es_digit(a.nom@[0])
    &&& forall|i: int| 0 <= i < a.nom@.len() ==> #[trigger] a.nom@[i] != '\n'
    &&& forall|d: DiaSetmana| !hi_ha(linia_nom(a), 0, #[trigger] nom_dia(d))
    &&& a.kind is None ==> !(a.nom@.len() >= 3 && a.nom@[a.nom@.len() - 2] == '_' && (a.nom@[a.nom@.len()
        - 1] == 'L' || a.nom@[a.nom@.len() - 1] == 'T'))
    &&& a.grups@.len() > 0
    &&& forall|g: int| 0 <= g < a.grups@.len() ==> #[trigger] grup_escrivible(a.grups@[g])
}

/// A list of courses that its canonical form describes.
pub open spec fn escrivible(v: Seq<AssignaturaParse>) -> bool {
    v.len() > 0 && forall|t: int| 0 <= t < v.len() ==> #[trigger] assig_escrivible(v[t])
}

/// The text is the canonical form of some list of courses.
pub open spec fn canonic(t: Seq<char>) -> bool {
    exists|v: Seq<AssignaturaParse>| escrivible(v) && #[trigger] text_llista(v) == t
}

/// The two hours of a session whose weekday `dia` was written at `pos` and
/// ends at `p`. Reads back the session `s` when the hours are written as its
/// canonical form and no digit follows.
fn parse_sessio(t: &Vec<char>, pos: usize, dia: DiaSetmana, p: usize, Ghost(s): Ghost<Sessio>) -> (r: Result<(Sessio, usize), ErrorParse>)
    requires
        pos < p <= t@.len(),
    ensures
        r matches Ok((s, fi)) ==> p <= fi <= t@.len() && s.wf() && s.dia == dia,
        r matches Err(e) ==> e.posicio <= t@.len(),
        hi_ha(t@, p as int, text_hores(s)) && s.dia == dia && s.wf() && (p + text_hores(s).len()
            == t@.len() || !es_digit(t@[p + text_hores(s).len()])) ==> (r matches Ok((s2, fi)) && s2
            == s && fi == p + text_hores(s).len()),
{
    let ghost bo = hi_ha(t@, p as int, text_hores(s)) && s.dia == dia && s.wf() && (p
        + text_hores(s).len() == t@.len() || !es_digit(t@[p + text_hores(s).len()]));
    let ghost ds = decimal(s.start as nat);
    let ghost df = decimal(s.finish as nat);
    proof {
        if bo {
            lemma_hi_ha_concat(t@, p as int, seq![' '] + ds + seq![' '], df);
            lemma_hi_ha_concat(t@, p as int, seq![' '] + ds, seq![' ']);
            lemma_hi_ha_concat(t@, p as int, seq![' '], ds);
            lemma_decimal(s.start as nat);
            lemma_decimal(s.finish as nat);
            assert(t@.subrange(p as int, p + 1)[0] == ' ');
            assert(t@.subrange(p + 1, p + 1 + ds.len())[0] == ds[0]);
            assert(t@.subrange(p + 1 + ds.len(), p + 2 + ds.len())[0] == ' ');
            assert(t@.subrange(p + 2 + ds.len(), p + 2 + ds.len() + df.len())[0] == df[0]);
            lemma_llegeix_decimal(t@, p + 1, s.start as nat);
            lemma_llegeix_decimal(t@, p + 2 + ds.len(), s.finish as nat);
        }
    }
    let p0 = p;
    let p = salta_espais(t, p);
    proof {
        if bo {
            assert(!es_espai(t@[p0 + 1]));
        }
    }
    let (start, p) = match llegeix_nombre(t, p) {
        Some(x) => x,
        None => {
            return Err(ErrorParse { posicio: p, motiu: MotiuParse::NumeroInvalid });
        },
    };
    let p1 = p;
    let p = salta_espais(t, p);
    proof {
        if bo {
            assert(!es_espai(t@[p1 + 1]));
        }
    }
    let (finish, p) = match llegeix_nombre(t, p) {
        Some(x) => x,
        None => {
            return Err(ErrorParse { posicio: p, motiu: MotiuParse::NumeroInvalid });
        },
    };
    match Sessio::new(dia, start, finish) {
        Some(s) => Ok((s, p)),
        None => Err(ErrorParse { posicio: pos, motiu: MotiuParse::HoraFora }),
    }
}

/// The text at `p` is the end, or the start of a part that is neither
/// whitespace nor a weekday word.
pub open spec fn seguit(t: Seq<char>, p: int) -> bool {
    p == t.len() || (p < t.len() && !es_espai(t[p]) && forall|d: DiaSetmana|
        !hi_ha(t, p, #[trigger] nom_dia(d)))
}

/// Two groups with the same number, language and sessions.
pub open spec fn mateix_grup(x: Grup, y: Grup) -> bool {
    x.num == y.num && x.llengua == y.llengua && x.sessions@ == y.sessions@
}

/// The sessions written from the first one on.
proof fn lemma_text_sessions_primer(x: Seq<Sessio>)
    requires
        x.len() > 0,
    ensures
        text_sessions(x) == text_sessio(x[0]) + text_sessions(x.drop_first()),
    decreases x.len(),
{
    if x.len() == 1 {
        assert(x.drop_last() =~= Seq::<Sessio>::empty());
        assert(x.drop_first() =~= Seq::<Sessio>::empty());
        assert(text_sessions(x) =~= text_sessio(x[0]) + text_sessions(x.drop_first()));
    } else {
        lemma_text_sessions_primer(x.drop_last());
        assert(x.drop_last().drop_first() =~= x.drop_first().drop_last());
        assert(x.drop_first().last() == x.last());
        assert(x.drop_last()[0] == x[0]);
        vstd::seq_lib::lemma_concat_associative(
            text_sessio(x[0]),
            text_sessions(x.drop_first().drop_last()),
            text_sessio(x.last()),
        );
    }
}

/// Reading the session `ss[i]` from the sessions `ss.skip(i)` written at
/// `p`, followed by a line break.
proof fn lemma_pas_sessio(t: Seq<char>, p: int, ss: Seq<Sessio>, i: int)
    requires
        0 <= p,
        0 <= i < ss.len(),
        hi_ha(t, p, text_sessions(ss.skip(i)) + seq!['\n']),
    ensures
        t[p] == ' ',
        p + 1 < t.len(),
        !es_espai(t[p + 1]),
        hi_ha(t, p + 1, nom_dia(ss[i].dia)),
        hi_ha(t, p + 1 + nom_dia(ss[i].dia).len(), text_hores(ss[i])),
        p + 1 + nom_dia(ss[i].dia).len() + text_hores(ss[i]).len() < t.len(),
        t[p + 1 + nom_dia(ss[i].dia).len() + text_hores(ss[i]).len()] == ' ' || t[p + 1
            + nom_dia(ss[i].dia).len() + text_hores(ss[i]).len()] == '\n',
        hi_ha(
            t,
            p + 1 + nom_dia(ss[i].dia).len() + text_hores(ss[i]).len(),
            text_sessions(ss.skip(i + 1)) + seq!['\n'],
        ),
        text_sessions(ss.skip(i)).len() == 1 + nom_dia(ss[i].dia).len() + text_hores(ss[i]).len()
            + text_sessions(ss.skip(i + 1)).len(),
{
    lemma_noms_dies();
    let x = ss.skip(i);
    lemma_text_sessions_primer(x);
    assert(x.drop_first() =~= ss.skip(i + 1));
    assert(x[0] == ss[i]);
    let rest = text_sessions(ss.skip(i + 1)) + seq!['\n'];
    vstd::seq_lib::lemma_concat_associative(
        text_sessio(ss[i]),
        text_sessions(ss.skip(i + 1)),
        seq!['\n'],
    );
    lemma_hi_ha_concat(t, p, text_sessio(ss[i]), rest);
    lemma_hi_ha_concat(t, p, seq![' '] + nom_dia(ss[i].dia), text_hores(ss[i]));
    lemma_hi_ha_concat(t, p, seq![' '], nom_dia(ss[i].dia));
    lemma_primer_car(t, p, seq![' ']);
    lemma_primer_car(t, p + 1, nom_dia(ss[i].dia));
    let nx = p + text_sessio(ss[i]).len();
    if ss.skip(i + 1).len() > 0 {
        let y = ss.skip(i + 1);
        lemma_text_sessions_primer(y);
        lemma_hi_ha_concat(t, nx, text_sessions(y), seq!['\n']);
        lemma_hi_ha_concat(t, nx, text_sessio(y[0]), text_sessions(y.drop_first()));
        lemma_primer_car(t, nx, text_sessio(y[0]));
        assert(text_sessio(y[0])[0] == ' ');
    } else {
        assert(text_sessions(ss.skip(i + 1)) =~= Seq::<char>::empty());
        assert(rest =~= seq!['\n']);
        lemma_primer_car(t, nx, seq!['\n']);
    }
}

/// A text with `a` at `p` has the first character of `a` at `p`.
proof fn lemma_primer_car(t: Seq<char>, p: int, a: Seq<char>)
    requires
        0 <= p,
        hi_ha(t, p, a),
        a.len() > 0,
    ensures
        p < t.len(),
        t[p] == a[0],
{
    assert(t.subrange(p, p + a.len())[0] == a[0]);
}

/// A group line written at `pos`: its numbers, its language and its
/// sessions. Gives one group per number, all with the same sessions. Reads
/// back the group `g` from its canonical line when what follows the line is
/// the end or a part that is neither whitespace nor a weekday word.
fn parse_grup(t: &Vec<char>, pos: usize, Ghost(g): Ghost<Grup>) -> (r: Result<(Vec<Grup>, usize), ErrorParse>)
    requires
        pos <= t@.len(),
    ensures
        r matches Ok((gs, fi)) ==> {
            &&& pos < fi <= t@.len()
            &&& gs@.len() > 0
            &&& forall|g: int| 0 <= g < gs@.len() ==> #[trigger] grup_ok(gs@[g])
        },
        r matches Err(e) ==> e.posicio <= t@.len(),
        hi_ha(t@, pos as int, text_grup(g)) && grup_escrivible(g) && seguit(t@, pos + text_grup(g).len())
            ==> (r matches Ok((gs, fi)) && gs@.len() == 1 && mateix_grup(gs@[0], g) && fi + 1 == pos
            + text_grup(g).len()),
{
    let ghost bo = hi_ha(t@, pos as int, text_grup(g)) && grup_escrivible(g) && seguit(
        t@,
        pos + text_grup(g).len(),
    );
    let ghost da = decimal(g.num as nat);
    let ghost nl = nom_llengua(g.llengua);
    let ghost ss = g.sessions@;
    let ghost base = pos + da.len() + 1 + nl.len();
    proof {
        if bo {
            lemma_hi_ha_concat(t@, pos as int, da + seq![' '] + nl + text_sessions(ss), seq!['\n']);
            lemma_hi_ha_concat(t@, pos as int, da + seq![' '] + nl, text_sessions(ss));
            lemma_hi_ha_concat(t@, pos as int, da + seq![' '], nl);
            lemma_hi_ha_concat(t@, pos as int, da, seq![' ']);
            lemma_hi_ha_concat(t@, base, text_sessions(ss), seq!['\n']);
            assert(ss.skip(0) =~= ss);
            lemma_primer_car(t@, pos + da.len(), seq![' ']);
            lemma_llegeix_decimal(t@, pos as int, g.num as nat);
        }
    }
    let mut nums: Vec<u32> = Vec::new();
    let mut p = pos;
    let mut mes = true;
    while mes
        invariant
            pos <= p <= t@.len(),
            mes ==> nums@.len() == 0 || pos < p,
            !mes ==> nums@.len() > 0 && pos < p,
            bo == (hi_ha(t@, pos as int, text_grup(g)) && grup_escrivible(g) && seguit(
                t@,
                pos + text_grup(g).len(),
            )),
            bo ==> fi_digits(t@, pos as int) == pos + da.len(),
            bo ==> da.len() > 0,
            bo ==> valor_digits(t@.subrange(pos as int, pos + da.len())) == g.num,
            bo ==> pos + da.len() < t@.len() && t@[pos + da.len()] == ' ',
            bo ==> g.num <= u32::MAX,
            bo && mes ==> p == pos && nums@.len() == 0,
            bo && !mes ==> p == pos + da.len() && nums@ == seq![g.num as u32],
        decreases t@.len() - p + if mes { 1int } else { 0 },
    {
        match llegeix_nombre(t, p) {
            Some((n, q)) => {
                nums.push(n);
                p = q;
            },
            None => {
                proof {
                    if bo {
                        assert(fi_digits(t@, p as int) == pos + da.len());
                        assert(valor_digits(t@.subrange(p as int, fi_digits(t@, p as int))) == g.num);
                    }
                }
                return Err(ErrorParse { posicio: p, motiu: MotiuParse::NumeroInvalid });
            },
        }
        if p < t.len() && t[p] == ',' {
            p += 1;
        } else {
            mes = false;
        }
    }
    proof {
        if bo {
            lemma_noms_llengues();
            lemma_primer_car(t@, pos + da.len() + 1, nl);
            assert(!es_espai(t@[pos + da.len() + 1]));
        }
    }
    let p = salta_espais(t, p);
    let (llengua, p) = match llegeix_llengua(t, p) {
        Some(x) => x,
        None => {
            return Err(ErrorParse { posicio: p, motiu: MotiuParse::LlenguaDesconeguda });
        },
    };
    let mut sessions: Vec<Sessio> = Vec::new();
    let mut p = p;
    let mut mes = true;
    while mes
        invariant
            pos < p <= t@.len(),
            forall|s: int| 0 <= s < sessions@.len() ==> (#[trigger] sessions@[s]).wf(),
            bo == (hi_ha(t@, pos as int, text_grup(g)) && grup_escrivible(g) && seguit(
                t@,
                pos + text_grup(g).len(),
            )),
            bo ==> llengua == g.llengua,
            bo ==> g.wf() && ss == g.sessions@ && ss.len() > 0,
            bo ==> sessions@.len() <= ss.len() && sessions@ == ss.take(sessions@.len() as int),
            bo ==> hi_ha(t@, p as int, text_sessions(ss.skip(sessions@.len() as int)) + seq!['\n']),
            bo ==> p + text_sessions(ss.skip(sessions@.len() as int)).len() + 1 == pos + text_grup(g).len(),
            bo ==> seguit(t@, pos + text_grup(g).len()),
            bo && !mes ==> sessions@.len() == ss.len(),
        decreases t@.len() - p + if mes { 1int } else { 0 },
    {
        let ghost i = sessions@.len() as int;
        proof {
            if bo {
                lemma_noms_dies();
                if i < ss.len() {
                    lemma_pas_sessio(t@, p as int, ss, i);
                    assert(ss[i].wf());
                } else {
                    assert(ss.skip(i) =~= Seq::<Sessio>::empty());
                    assert(text_sessions(ss.skip(i)) + seq!['\n'] =~= seq!['\n']);
                    lemma_primer_car(t@, p as int, seq!['\n']);
                    if p + 1 < t@.len() {
                        assert(!es_espai(t@[p + 1]));
                    }
                }
            }
        }
        let q = salta_espais(t, p);
        match llegeix_dia(t, q) {
            Some((dia, fi_dia)) => {
                proof {
                    reveal_strlit("dilluns");
                    reveal_strlit("dimarts");
                    reveal_strlit("dimecres");
                    reveal_strlit("dijous");
                    reveal_strlit("divendres");
                }
                let ghost esperada = if bo && i < ss.len() { ss[i] } else { arbitrary() };
                proof {
                    if bo && i < ss.len() {
                        assert(q == p + 1);
                        assert(dia == ss[i].dia);
                    }
                }
                match parse_sessio(t, q, dia, fi_dia, Ghost(esperada)) {
                    Ok((s, fi)) => {
                        sessions.push(s);
                        p = fi;
                        proof {
                            if bo {
                                assert(sessions@ =~= ss.take(i + 1));
                            }
                        }
                    },
                    Err(e) => {
                        return Err(e);
                    },
                }
            },
            None => {
                mes = false;
            },
        }
    }
    if sessions.len() == 0 {
        return Err(ErrorParse { posicio: p, motiu: MotiuParse::SenseSessions });
    }
    let mut gs: Vec<Grup> = Vec::new();
    let mut i: usize = 0;
    while i < nums.len()
        invariant
            0 <= i <= nums@.len(),
            gs@.len() == i,
            sessions@.len() > 0,
            forall|s: int| 0 <= s < sessions@.len() ==> (#[trigger] sessions@[s]).wf(),
            forall|g: int| 0 <= g < gs@.len() ==> #[trigger] grup_ok(gs@[g]),
            forall|k: int| 0 <= k < gs@.len() ==> (#[trigger] gs@[k]).num == nums@[k] as usize
                && gs@[k].llengua == llengua && gs@[k].sessions@ == sessions@,
        decreases nums@.len() - i,
    {
        gs.push(Grup { num: nums[i] as usize, llengua, sessions: sessions.clone() });
        i += 1;
    }
    proof {
        if bo {
            assert(ss.take(ss.len() as int) =~= ss);
            assert(ss.skip(ss.len() as int) =~= Seq::<Sessio>::empty());
        }
    }
    Ok((gs, p))
}

/// Where the line that holds `pos` ends: the next newline, or the end.
fn fi_de_linia(t: &Vec<char>, pos: usize) -> (r: usize)
    requires
        pos <= t@.len(),
    ensures
        pos <= r <= t@.len(),
        forall|i: int| pos <= i < r ==> #[trigger] t@[i] != '\n',
        r == t@.len() || t@[r as int] == '\n',
{
    let mut p = pos;
    while p < t.len() && t[p] != '\n'
        invariant
            pos <= p <= t@.len(),
            forall|i: int| pos <= i < p ==> #[trigger] t@[i] != '\n',
        decreases t@.len() - p,
    {
        p += 1;
    }
    p
}

/// What follows a course in canonical form: the end, or the start of a name
/// that is neither whitespace, a digit nor a weekday word.
pub open spec fn seguit_assig(t: Seq<char>, p: int) -> bool {
    seguit(t, p) && (p < t.len() ==> !es_digit(t[p]))
}

/// Two courses with the same name and kind, and groups that match one by one.
pub open spec fn mateixa(w: AssignaturaParse, a: AssignaturaParse) -> bool {
    &&& w.nom@ == a.nom@
    &&& w.kind == a.kind
    &&& w.grups@.len() == a.grups@.len()
    &&& forall|g: int| 0 <= g < a.grups@.len() ==> #[trigger] mateix_grup(w.grups@[g], a.grups@[g])
}

/// The group lines written from the first one on.
proof fn lemma_text_grups_primer(x: Seq<Grup>)
    requires
        x.len() > 0,
    ensures
        text_grups(x) == text_grup(x[0]) + text_grups(x.drop_first()),
    decreases x.len(),
{
    if x.len() == 1 {
        assert(x.drop_last() =~= Seq::<Grup>::empty());
        assert(x.drop_first() =~= Seq::<Grup>::empty());
        assert(text_grups(x) =~= text_grup(x[0]) + text_grups(x.drop_first()));
    } else {
        lemma_text_grups_primer(x.drop_last());
        assert(x.drop_last().drop_first() =~= x.drop_first().drop_last());
        assert(x.drop_first().last() == x.last());
        assert(x.drop_last()[0] == x[0]);
        vstd::seq_lib::lemma_concat_associative(
            text_grup(x[0]),
            text_grups(x.drop_first().drop_last()),
            text_grup(x.last()),
        );
    }
}

/// Reading group `gs[j]` from the group lines `gs.skip(j)` written after the
/// line break at `p`.
proof fn lemma_pas_grup(t: Seq<char>, p: int, gs: Seq<Grup>, j: int, fi: int)
    requires
        0 <= p,
        0 <= j < gs.len(),
        hi_ha(t, p + 1, text_grups(gs.skip(j))),
        fi == p + 1 + text_grups(gs.skip(j)).len(),
        seguit(t, fi),
        forall|k: int| 0 <= k < gs.len() ==> #[trigger] grup_escrivible(gs[k]),
    ensures
        p + 1 < t.len(),
        es_digit(t[p + 1]),
        !es_espai(t[p + 1]),
        hi_ha(t, p + 1, text_grup(gs[j])),
        grup_escrivible(gs[j]),
        seguit(t, p + 1 + text_grup(gs[j]).len()),
        t[p + text_grup(gs[j]).len()] == '\n',
        hi_ha(t, p + 1 + text_grup(gs[j]).len(), text_grups(gs.skip(j + 1))),
        fi == p + 1 + text_grup(gs[j]).len() + text_grups(gs.skip(j + 1)).len(),
{
    lemma_noms_dies();
    let x = gs.skip(j);
    lemma_text_grups_primer(x);
    assert(x.drop_first() =~= gs.skip(j + 1));
    assert(x[0] == gs[j]);
    let g = gs[j];
    assert(grup_escrivible(g));
    lemma_hi_ha_concat(t, p + 1, text_grup(g), text_grups(gs.skip(j + 1)));
    lemma_decimal(g.num as nat);
    let da = decimal(g.num as nat);
    lemma_hi_ha_concat(
        t,
        p + 1,
        da,
        seq![' '] + nom_llengua(g.llengua) + text_sessions(g.sessions@) + seq!['\n'],
    );
    assert(text_grup(g) =~= da + (seq![' '] + nom_llengua(g.llengua) + text_sessions(g.sessions@)
        + seq!['\n']));
    lemma_primer_car(t, p + 1, da);
    assert(es_digit(da[0]));
    let pre = decimal(g.num as nat) + seq![' '] + nom_llengua(g.llengua) + text_sessions(g.sessions@);
    lemma_hi_ha_concat(t, p + 1, pre, seq!['\n']);
    lemma_primer_car(t, p + 1 + pre.len(), seq!['\n']);
    let nx = p + 1 + text_grup(g).len();
    if j + 1 < gs.len() {
        let y = gs.skip(j + 1);
        lemma_text_grups_primer(y);
        lemma_hi_ha_concat(t, nx, text_grup(y[0]), text_grups(y.drop_first()));
        assert(y[0] == gs[j + 1]);
        lemma_decimal(y[0].num as nat);
        let dy = decimal(y[0].num as nat);
        lemma_hi_ha_concat(
            t,
            nx,
            dy,
            seq![' '] + nom_llengua(y[0].llengua) + text_sessions(y[0].sessions@) + seq!['\n'],
        );
        assert(text_grup(y[0]) =~= dy + (seq![' '] + nom_llengua(y[0].llengua) + text_sessions(
            y[0].sessions@,
        ) + seq!['\n']));
        lemma_primer_car(t, nx, dy);
        assert(es_digit(dy[0]));
        assert forall|d: DiaSetmana| !hi_ha(t, nx, #[trigger] nom_dia(d)) by {
            if hi_ha(t, nx, nom_dia(d)) {
                lemma_primer_car(t, nx, nom_dia(d));
            }
        }
    } else {
        assert(gs.skip(j + 1) =~= Seq::<Grup>::empty());
        assert(text_grups(gs.skip(j + 1)) =~= Seq::<char>::empty());
    }
}

/// A course written at `pos`: the rest of the line is its name, and its
/// groups follow. Reads back the course `a` from its canonical form when what
/// follows it is the end or the start of another canonical course.
fn parse_assig(text: &str, t: &Vec<char>, pos: usize, Ghost(a): Ghost<AssignaturaParse>) -> (r: Result<(AssignaturaParse, usize), ErrorParse>)
    requires
        t@ == text@,
        pos < t@.len(),
        !es_espai(t@[pos as int]),
    ensures
        r matches Ok((a, fi)) ==> {
            &&& pos < fi <= t@.len()
            &&& a.nom@ == t@.subrange(pos as int, pos + a.nom@.len())
            &&& a.kind == Some(AssigKind::Lab) ==> t@.subrange(pos + a.nom@.len(), pos + a.nom@.len() + 2) == seq!['_', 'L']
            &&& a.kind == Some(AssigKind::Teoria) ==> t@.subrange(pos + a.nom@.len(), pos + a.nom@.len() + 2) == seq!['_', 'T']
            &&& a.grups@.len() > 0
            &&& forall|g: int| 0 <= g < a.grups@.len() ==> #[trigger] grup_ok(a.grups@[g])
        },
        r matches Err(e) ==> e.posicio <= t@.len(),
        hi_ha(t@, pos as int, text_assig(a)) && assig_escrivible(a) && seguit_assig(
            t@,
            pos + text_assig(a).len(),
        ) ==> (r matches Ok((w, fi)) && mateixa(w, a) && fi + 1 == pos + text_assig(a).len()),
{
    let ghost bo = hi_ha(t@, pos as int, text_assig(a)) && assig_escrivible(a) && seguit_assig(
        t@,
        pos + text_assig(a).len(),
    );
    let ghost ln = linia_nom(a);
    let ghost gs = a.grups@;
    let ghost fi_total = pos + text_assig(a).len();
    proof {
        if bo {
            lemma_hi_ha_concat(t@, pos as int, ln, text_grups(gs));
            lemma_hi_ha_concat(t@, pos as int, a.nom@ + sufix(a.kind), seq!['\n']);
            lemma_hi_ha_concat(t@, pos as int, a.nom@, sufix(a.kind));
            let le = pos + a.nom@.len() + sufix(a.kind).len();
            lemma_primer_car(t@, le, seq!['\n']);
            assert forall|i: int| pos <= i < le implies #[trigger] t@[i] != '\n' by {
                if i < pos + a.nom@.len() {
                    assert(t@.subrange(pos as int, pos + a.nom@.len())[i - pos] == a.nom@[i - pos]);
                } else {
                    assert(t@.subrange(pos + a.nom@.len(), le)[i - pos - a.nom@.len()] == sufix(
                        a.kind,
                    )[i - pos - a.nom@.len()]);
                }
            }
            if a.kind is Some {
                assert(t@.subrange(pos + a.nom@.len(), le)[0] == '_');
                assert(t@.subrange(pos + a.nom@.len(), le)[1] == sufix(a.kind)[1]);
            } else {
                assert forall|i: int| 0 <= i < a.nom@.len() implies t@[pos + i] == a.nom@[i] by {
                    assert(t@.subrange(pos as int, pos + a.nom@.len())[i] == a.nom@[i]);
                }
            }
            assert(gs.skip(0) =~= gs);
        }
    }
    let e = fi_de_linia(t, pos);
    let (fi_nom, kind) = if e - pos >= 3 && t[e - 2] == '_' && t[e - 1] == 'L' {
        (e - 2, Some(AssigKind::Lab))
    } else if e - pos >= 3 && t[e - 2] == '_' && t[e - 1] == 'T' {
        (e - 2, Some(AssigKind::Teoria))
    } else {
        (e, None)
    };
    let nom = text.substring_char(pos, fi_nom).to_owned();
    proof {
        if kind is Some {
            assert(t@.subrange(fi_nom as int, fi_nom + 2) =~= seq![t@[e - 2], t@[e - 1]]);
        }
        if bo {
            assert(e == pos + a.nom@.len() + sufix(a.kind).len());
            assert(kind == a.kind);
            assert(nom@ =~= a.nom@);
        }
    }
    let mut grups: Vec<Grup> = Vec::new();
    let mut p = e;
    let mut mes = true;
    while mes
        invariant
            pos < e <= p <= t@.len(),
            forall|g: int| 0 <= g < grups@.len() ==> #[trigger] grup_ok(grups@[g]),
            bo == (hi_ha(t@, pos as int, text_assig(a)) && assig_escrivible(a) && seguit_assig(
                t@,
                fi_total,
            )),
            fi_total == pos + text_assig(a).len(),
            gs == a.grups@,
            bo ==> grups@.len() <= gs.len(),
            bo ==> forall|k: int| 0 <= k < grups@.len() ==> #[trigger] mateix_grup(grups@[k], gs[k]),
            bo ==> p < t@.len() && t@[p as int] == '\n',
            bo ==> hi_ha(t@, p + 1, text_grups(gs.skip(grups@.len() as int))),
            bo ==> fi_total == p + 1 + text_grups(gs.skip(grups@.len() as int)).len(),
            bo && !mes ==> grups@.len() == gs.len(),
        decreases t@.len() - p + if mes { 1int } else { 0 },
    {
        let ghost j = grups@.len() as int;
        proof {
            if bo {
                if j < gs.len() {
                    lemma_pas_grup(t@, p as int, gs, j, fi_total);
                } else {
                    assert(gs.skip(j) =~= Seq::<Grup>::empty());
                    assert(text_grups(gs.skip(j)) =~= Seq::<char>::empty());
                    if p + 1 < t@.len() {
                        assert(!es_espai(t@[p + 1]));
                    }
                }
            }
        }
        let q = salta_espais(t, p);
        if q < t.len() && '0' <= t[q] && t[q] <= '9' {
            let ghost esperat = if bo && j < gs.len() { gs[j] } else { arbitrary() };
            match parse_grup(t, q, Ghost(esperat)) {
                Ok((mut nous, fi)) => {
                    grups.append(&mut nous);
                    p = fi;
                },
                Err(err) => {
                    return Err(err);
                },
            }
        } else {
            mes = false;
        }
    }
    if grups.len() == 0 {
        return Err(ErrorParse { posicio: p, motiu: MotiuParse::SenseGrups });
    }
    proof {
        if bo {
            assert(gs.skip(gs.len() as int) =~= Seq::<Grup>::empty());
        }
    }
    Ok((AssignaturaParse { nom, kind, grups }, p))
}

/// The courses written from the first one on.
proof fn lemma_text_llista_primer(x: Seq<AssignaturaParse>)
    requires
        x.len() > 0,
    ensures
        text_llista(x) == text_assig(x[0]) + text_llista(x.drop_first()),
    decreases x.len(),
{
    if x.len() == 1 {
        assert(x.drop_last() =~= Seq::<AssignaturaParse>::empty());
        assert(x.drop_first() =~= Seq::<AssignaturaParse>::empty());
        assert(text_llista(x) =~= text_assig(x[0]) + text_llista(x.drop_first()));
    } else {
        lemma_text_llista_primer(x.drop_last());
        assert(x.drop_last().drop_first() =~= x.drop_first().drop_last());
        assert(x.drop_first().last() == x.last());
        assert(x.drop_last()[0] == x[0]);
        vstd::seq_lib::lemma_concat_associative(
            text_assig(x[0]),
            text_llista(x.drop_first().drop_last()),
            text_assig(x.last()),
        );
    }
}

/// No weekday word stands where a canonical name line that starts with none
/// stands.
proof fn lemma_sense_dia(t: Seq<char>, p: int, a: AssignaturaParse)
    requires
        0 <= p,
        hi_ha(t, p, linia_nom(a)),
        forall|d: DiaSetmana| !hi_ha(linia_nom(a), 0, #[trigger] nom_dia(d)),
    ensures
        forall|d: DiaSetmana| !hi_ha(t, p, #[trigger] nom_dia(d)),
{
    lemma_noms_dies();
    let ln = linia_nom(a);
    assert forall|d: DiaSetmana| !hi_ha(t, p, #[trigger] nom_dia(d)) by {
        let w = nom_dia(d);
        if hi_ha(t, p, w) {
            if w.len() <= ln.len() {
                assert(ln.subrange(0, w.len() as int) =~= t.subrange(p, p + w.len()));
                assert(hi_ha(ln, 0, w));
            } else {
                assert(t.subrange(p, p + ln.len())[ln.len() - 1] == ln[ln.len() - 1]);
                assert(t.subrange(p, p + w.len())[ln.len() - 1] == w[ln.len() - 1]);
                assert(ln[ln.len() - 1] == '\n');
                assert(!es_espai(w[ln.len() - 1]));
            }
        }
    }
}

/// Group lines of matching groups are the same text.
proof fn lemma_grups_mateixos(x: Seq<Grup>, y: Seq<Grup>)
    requires
        x.len() == y.len(),
        forall|g: int| 0 <= g < x.len() ==> #[trigger] mateix_grup(x[g], y[g]),
    ensures
        text_grups(x) == text_grups(y),
        forall|g: int| 0 <= g < x.len() ==> grup_escrivible(#[trigger] x[g]) == grup_escrivible(y[g]),
    decreases x.len(),
{
    if x.len() > 0 {
        assert forall|g: int| 0 <= g < x.len() - 1 implies #[trigger] mateix_grup(
            x.drop_last()[g],
            y.drop_last()[g],
        ) by {
            assert(mateix_grup(x[g], y[g]));
        }
        lemma_grups_mateixos(x.drop_last(), y.drop_last());
        assert(mateix_grup(x.last(), y.last()));
    }
    assert forall|g: int| 0 <= g < x.len() implies grup_escrivible(#[trigger] x[g]) == grup_escrivible(
        y[g],
    ) by {
        assert(mateix_grup(x[g], y[g]));
    }
}

/// Matching courses have the same canonical form, and one is described by
/// it exactly when the other is.
proof fn lemma_llista_mateixa(w: Seq<AssignaturaParse>, v: Seq<AssignaturaParse>)
    requires
        w.len() == v.len(),
        forall|k: int| 0 <= k < v.len() ==> #[trigger] mateixa(w[k], v[k]),
    ensures
        text_llista(w) == text_llista(v),
        escrivible(w) == escrivible(v),
    decreases w.len(),
{
    if w.len() > 0 {
        assert forall|k: int| 0 <= k < v.len() - 1 implies #[trigger] mateixa(
            w.drop_last()[k],
            v.drop_last()[k],
        ) by {
            assert(mateixa(w[k], v[k]));
        }
        lemma_llista_mateixa(w.drop_last(), v.drop_last());
        assert(mateixa(w.last(), v.last()));
        lemma_grups_mateixos(w.last().grups@, v.last().grups@);
        assert(linia_nom(w.last()) == linia_nom(v.last()));
    }
    assert forall|k: int| 0 <= k < v.len() implies #[trigger] assig_escrivible(w[k]) == assig_escrivible(
        v[k],
    ) by {
        assert(mateixa(w[k], v[k]));
        let (x, y) = (w[k], v[k]);
        lemma_grups_mateixos(x.grups@, y.grups@);
        assert(linia_nom(x) == linia_nom(y));
        assert(x.nom@ == y.nom@);
        if forall|g: int| 0 <= g < y.grups@.len() ==> #[trigger] grup_escrivible(y.grups@[g]) {
            assert forall|g: int| 0 <= g < x.grups@.len() implies #[trigger] grup_escrivible(x.grups@[g]) by {
                assert(grup_escrivible(y.grups@[g]));
            }
        }
        if forall|g: int| 0 <= g < x.grups@.len() ==> #[trigger] grup_escrivible(x.grups@[g]) {
            assert forall|g: int| 0 <= g < y.grups@.len() implies #[trigger] grup_escrivible(y.grups@[g]) by {
                assert(grup_escrivible(x.grups@[g]));
            }
        }
    }
    if escrivible(v) {
        assert forall|k: int| 0 <= k < w.len() implies #[trigger] assig_escrivible(w[k]) by {
            assert(assig_escrivible(v[k]));
        }
    }
    if escrivible(w) {
        assert forall|k: int| 0 <= k < v.len() implies #[trigger] assig_escrivible(v[k]) by {
            assert(assig_escrivible(w[k]));
        }
    }
}

/// The text is a list of courses that can go to the planner: there is one,
/// each offers a group, and every group has well-formed sessions.
pub open spec fn ben_format(v: Seq<AssignaturaParse>) -> bool {
    &&& v.len() > 0
    &&& forall|t: int| 0 <= t < v.len() ==> (#[trigger] v[t]).wf() && opcions(v, t) > 0
    &&& forall|t: int, g: int|
        0 <= t < v.len() && 0 <= g < opcions(v, t) ==> (#[trigger] v[t].grups@[g]).sessions@.len() > 0
}

/// Reading course `cv[k]` from the courses `cv.skip(k)` written at `inici`.
proof fn lemma_pas_assig(t: Seq<char>, inici: int, cv: Seq<AssignaturaParse>, k: int)
    requires
        0 <= inici,
        0 <= k < cv.len(),
        escrivible(cv),
        hi_ha(t, inici, text_llista(cv.skip(k))),
        inici + text_llista(cv.skip(k)).len() == t.len(),
    ensures
        inici < t.len(),
        !es_espai(t[inici]),
        hi_ha(t, inici, text_assig(cv[k])),
        assig_escrivible(cv[k]),
        seguit_assig(t, inici + text_assig(cv[k]).len()),
        t[inici + text_assig(cv[k]).len() - 1] == '\n',
        hi_ha(t, inici + text_assig(cv[k]).len(), text_llista(cv.skip(k + 1))),
        inici + text_assig(cv[k]).len() + text_llista(cv.skip(k + 1)).len() == t.len(),
{
    let x = cv.skip(k);
    lemma_text_llista_primer(x);
    assert(x.drop_first() =~= cv.skip(k + 1));
    assert(x[0] == cv[k]);
    let a = cv[k];
    assert(assig_escrivible(a));
    lemma_hi_ha_concat(t, inici, text_assig(a), text_llista(cv.skip(k + 1)));
    lemma_hi_ha_concat(t, inici, linia_nom(a), text_grups(a.grups@));
    lemma_hi_ha_concat(t, inici, a.nom@ + sufix(a.kind), seq!['\n']);
    lemma_hi_ha_concat(t, inici, a.nom@, sufix(a.kind));
    lemma_primer_car(t, inici, a.nom@);
    let gs = a.grups@;
    let pre = linia_nom(a) + text_grups(gs.drop_last());
    assert(text_assig(a) =~= pre + text_grup(gs.last()));
    let lg = gs.last();
    let cos = decimal(lg.num as nat) + seq![' '] + nom_llengua(lg.llengua) + text_sessions(lg.sessions@);
    assert(text_assig(a) =~= (pre + cos) + seq!['\n']);
    lemma_hi_ha_concat(t, inici, pre + cos, seq!['\n']);
    lemma_primer_car(t, inici + (pre + cos).len(), seq!['\n']);
    let nx = inici + text_assig(a).len();
    if k + 1 < cv.len() {
        let y = cv.skip(k + 1);
        lemma_text_llista_primer(y);
        assert(y[0] == cv[k + 1]);
        let b = cv[k + 1];
        assert(assig_escrivible(b));
        lemma_hi_ha_concat(t, nx, text_assig(b), text_llista(y.drop_first()));
        lemma_hi_ha_concat(t, nx, linia_nom(b), text_grups(b.grups@));
        lemma_hi_ha_concat(t, nx, b.nom@ + sufix(b.kind), seq!['\n']);
        lemma_hi_ha_concat(t, nx, b.nom@, sufix(b.kind));
        lemma_primer_car(t, nx, b.nom@);
        lemma_sense_dia(t, nx, b);
    } else {
        assert(cv.skip(k + 1) =~= Seq::<AssignaturaParse>::empty());
        assert(text_llista(cv.skip(k + 1)) =~= Seq::<char>::empty());
    }
}

/// Reads every course of the text, in order. A text that is the canonical
/// form of a list of courses is read back as a list with that same canonical
/// form.
#[verifier::rlimit(40)]
pub fn parse_raw_horari(text: &str) -> (r: Result<Vec<AssignaturaParse>, ErrorParse>)
    ensures
        r matches Ok(v) ==> ben_format(v@),
        r matches Err(e) ==> e.posicio <= text@.len(),
        text@.len() == 0 ==> r == Err::<Vec<AssignaturaParse>, _>(
            ErrorParse { posicio: 0, motiu: MotiuParse::CapAssignatura },
        ),
        canonic(text@) ==> (r matches Ok(w) && escrivible(w@) && text_llista(w@) == text@),
{
    let t = caracters(text);
    let ghost bo = canonic(text@);
    let ghost cv = if bo {
        choose|v: Seq<AssignaturaParse>| escrivible(v) && #[trigger] text_llista(v) == text@
    } else {
        arbitrary()
    };
    proof {
        if bo {
            assert(cv.skip(0) =~= cv);
            assert(hi_ha(t@, 0, text_llista(cv.skip(0)))) by {
                assert(t@.subrange(0, t@.len() as int) =~= t@);
            }
        }
    }
    let mut v: Vec<AssignaturaParse> = Vec::new();
    let mut p: usize = 0;
    let mut mes = true;
    while mes
        invariant
            t@ == text@,
            p <= t@.len(),
            v@.len() == 0 ==> p == 0,
            t@.len() == 0 ==> v@.len() == 0,
            forall|k: int| 0 <= k < v@.len() ==> (#[trigger] v@[k]).wf() && opcions(v@, k) > 0,
            forall|k: int, g: int|
                0 <= k < v@.len() && 0 <= g < opcions(v@, k) ==> (#[trigger] v@[k].grups@[g]).sessions@.len() > 0,
            bo == canonic(text@),
            bo ==> escrivible(cv) && text_llista(cv) == text@,
            bo ==> v@.len() <= cv.len(),
            bo ==> forall|k: int| 0 <= k < v@.len() ==> #[trigger] mateixa(v@[k], cv[k]),
            bo && v@.len() > 0 ==> p < t@.len() && t@[p as int] == '\n',
            bo ==> hi_ha(t@, if v@.len() == 0 { 0 } else { p + 1 }, text_llista(cv.skip(v@.len() as int))),
            bo ==> (if v@.len() == 0 { 0 } else { p + 1 }) + text_llista(cv.skip(v@.len() as int)).len() == t@.len(),
            bo && !mes ==> v@.len() == cv.len(),
        decreases t@.len() - p + if mes { 1int } else { 0 },
    {
        let ghost k = v@.len() as int;
        let ghost inici = if k == 0 { 0 } else { p + 1 };
        proof {
            if bo {
                if k < cv.len() {
                    lemma_pas_assig(t@, inici, cv, k);
                    if k > 0 {
                        assert(!es_espai(t@[p + 1]));
                    }
                } else {
                    assert(cv.skip(k) =~= Seq::<AssignaturaParse>::empty());
                    assert(text_llista(cv.skip(k)) =~= Seq::<char>::empty());
                }
            }
        }
        let q = salta_espais(&t, p);
        if q == t.len() {
            mes = false;
        } else {
            let ghost esperada = if bo && k < cv.len() { cv[k] } else { arbitrary() };
            match parse_assig(text, &t, q, Ghost(esperada)) {
                Ok((a, fi)) => {
                    proof {
                        assert forall|g: int| 0 <= g < a.grups@.len() implies (#[trigger] a.grups@[g]).wf() by {
                            assert(grup_ok(a.grups@[g]));
                        }
                    }
                    v.push(a);
                    p = fi;
                    proof {
                        assert forall|k: int, g: int|
                            0 <= k < v@.len() && 0 <= g < opcions(v@, k) implies (#[trigger] v@[k].grups@[g]).sessions@.len() > 0 by {
                            if k == v@.len() - 1 {
                                assert(grup_ok(a.grups@[g]));
                            }
                        }
                    }
                },
                Err(e) => {
                    return Err(e);
                },
            }
        }
    }
    if v.len() == 0 {
        return Err(ErrorParse { posicio: p, motiu: MotiuParse::CapAssignatura });
    }
    proof {
        if bo {
            lemma_llista_mateixa(v@, cv);
        }
    }
    Ok(v)
}

/// `a` followed by `b` stands at `p` exactly when `a` stands at `p` and `b`
/// right after it.
proof fn lemma_hi_ha_concat(t: Seq<char>, p: int, a: Seq<char>, b: Seq<char>)
    requires
        0 <= p,
    ensures
        hi_ha(t, p, a + b) <==> hi_ha(t, p, a) && hi_ha(t, p + a.len(), b),
{
    if hi_ha(t, p, a + b) {
        assert(t.subrange(p, p + a.len()) =~= (a + b).subrange(0, a.len() as int));
        assert((a + b).subrange(0, a.len() as int) =~= a);
        assert(t.subrange(p + a.len(), p + a.len() + b.len()) =~= (a + b).subrange(
            a.len() as int,
            (a.len() + b.len()) as int,
        ));
        assert((a + b).subrange(a.len() as int, (a.len() + b.len()) as int) =~= b);
    }
    if hi_ha(t, p, a) && hi_ha(t, p + a.len(), b) {
        assert(t.subrange(p, p + a.len() + b.len()) =~= a + b) by {
            assert forall|i: int| 0 <= i < a.len() + b.len() implies t.subrange(
                p,
                p + a.len() + b.len(),
            )[i] == (a + b)[i] by {
                if i < a.len() {
                    assert(t.subrange(p, p + a.len())[i] == a[i]);
                } else {
                    assert(t.subrange(p + a.len(), p + a.len() + b.len())[i - a.len()] == b[i
                        - a.len()]);
                }
            }
        }
    }
}

/// The decimal form of `n` is a run of digits that writes `n`.
proof fn lemma_decimal(n: nat)
    ensures
        decimal(n).len() > 0,
        forall|i: int| 0 <= i < decimal(n).len() ==> es_digit(#[trigger] decimal(n)[i]),
        valor_digits(decimal(n)) == n,
    decreases n,
{
    if n >= 10 {
        lemma_decimal(n / 10);
        let d = decimal(n);
        assert(d.drop_last() =~= decimal(n / 10));
        assert(d.last() == car_xifra((n % 10) as int));
        assert(car_xifra((n % 10) as int) as int - '0' as int == n % 10);
        assert(valor_digits(d) == valor_digits(decimal(n / 10)) * 10 + (n % 10));
        assert((n / 10) * 10 + n % 10 == n);
    } else {
        assert(decimal(n).drop_last() =~= Seq::<char>::empty());
        assert(valor_digits(Seq::<char>::empty()) == 0);
        assert(decimal(n).last() == car_xifra(n as int));
        assert(car_xifra(n as int) as int - '0' as int == n);
    }
}

/// A run of digits at `p` that ends before a non-digit is where the run
/// starting at `p` ends.
proof fn lemma_fi_digits_exacte(t: Seq<char>, p: int, q: int)
    requires
        0 <= p <= q <= t.len(),
        forall|i: int| p <= i < q ==> es_digit(#[trigger] t[i]),
        q == t.len() || !es_digit(t[q]),
    ensures
        fi_digits(t, p) == q,
    decreases q - p,
{
    if p < q {
        lemma_fi_digits_exacte(t, p + 1, q);
    }
}

/// The decimal form of `n` written at `p` and followed by a non-digit is read
/// back as `n`.
proof fn lemma_llegeix_decimal(t: Seq<char>, p: int, n: nat)
    requires
        0 <= p,
        hi_ha(t, p, decimal(n)),
        p + decimal(n).len() == t.len() || !es_digit(t[p + decimal(n).len()]),
    ensures
        fi_digits(t, p) == p + decimal(n).len(),
        valor_digits(t.subrange(p, fi_digits(t, p))) == n,
        fi_digits(t, p) > p,
{
    lemma_decimal(n);
    let q = p + decimal(n).len();
    assert forall|i: int| p <= i < q implies es_digit(#[trigger] t[i]) by {
        assert(t.subrange(p, q)[i - p] == decimal(n)[i - p]);
    }
    lemma_fi_digits_exacte(t, p, q);
}

/// The weekday words begin with `d`, share no prefix with one another, and
/// hold no whitespace.
proof fn lemma_noms_dies()
    ensures
        forall|d: DiaSetmana| #[trigger] nom_dia(d).len() > 3 && nom_dia(d)[0] == 'd',
        forall|d: DiaSetmana, i: int| 0 <= i < nom_dia(d).len() ==> !es_espai(#[trigger] nom_dia(d)[i]),
        forall|d1: DiaSetmana, d2: DiaSetmana| d1 != d2 ==> #[trigger] nom_dia(d1)[2] != #[trigger] nom_dia(d2)[2] || nom_dia(d1)[3] != nom_dia(d2)[3],
{
    reveal_strlit("dilluns");
    reveal_strlit("dimarts");
    reveal_strlit("dimecres");
    reveal_strlit("dijous");
    reveal_strlit("divendres");
}

/// The language words share no prefix with one another and hold no
/// whitespace.
proof fn lemma_noms_llengues()
    ensures
        forall|l: Llengua| #[trigger] nom_llengua(l).len() > 2,
        forall|l: Llengua, i: int| 0 <= i < nom_llengua(l).len() ==> !es_espai(#[trigger] nom_llengua(l)[i]) && !es_digit(nom_llengua(l)[i]),
        forall|l1: Llengua, l2: Llengua| l1 != l2 ==> #[trigger] nom_llengua(l1)[0] != #[trigger] nom_llengua(l2)[0] || nom_llengua(l1)[2] != nom_llengua(l2)[2],
{
    reveal_strlit("catala");
    reveal_strlit("castella");
    reveal_strlit("angles");
}

/// Whether the whole of `t` is the word `w`.
fn es_paraula(t: &Vec<char>, w: &str) -> (r: bool)
    ensures
        r == (t@ == w@),
{
    match coincideix(t, 0, w) {
        Some(fi) => {
            assert(t@.subrange(0, w@.len() as int) == w@);
            if fi == t.len() {
                assert(t@ =~= t@.subrange(0, w@.len() as int));
                true
            } else {
                false
            }
        },
        None => {
            assert(t@ == w@ ==> t@.subrange(0, w@.len() as int) =~= w@);
            false
        },
    }
}

impl DiaSetmana {
    /// The weekday that `value` names.
    pub fn try_from(value: &str) -> (r: Result<DiaSetmana, ()>)
        ensures
            r matches Ok(d) ==> value@ == nom_dia(d),
            r is Err ==> forall|d: DiaSetmana| value@ != #[trigger] nom_dia(d),
    {
        let t = caracters(value);
        if es_paraula(&t, "dilluns") {
            Ok(DiaSetmana::Dilluns)
        } else if es_paraula(&t, "dimarts") {
            Ok(DiaSetmana::Dimarts)
        } else if es_paraula(&t, "dimecres") {
            Ok(DiaSetmana::Dimecres)
        } else if es_paraula(&t, "dijous") {
            Ok(DiaSetmana::Dijous)
        } else if es_paraula(&t, "divendres") {
            Ok(DiaSetmana::Divendres)
        } else {
            assert forall|d: DiaSetmana| value@ != #[trigger] nom_dia(d) by {
                match d {
                    DiaSetmana::Dilluns => {},
                    DiaSetmana::Dimarts => {},
                    DiaSetmana::Dimecres => {},
                    DiaSetmana::Dijous => {},
                    DiaSetmana::Divendres => {},
                }
            }
            Err(())
        }
    }
}

impl Llengua {
    /// The language that `value` names.
    pub fn try_from(value: &str) -> (r: Result<Llengua, ()>)
        ensures
            r matches Ok(l) ==> value@ == nom_llengua(l),
            r is Err ==> forall|l: Llengua| value@ != #[trigger] nom_llengua(l),
    {
        let t = caracters(value);
        if es_paraula(&t, "catala") {
            Ok(Llengua::Catala)
        } else if es_paraula(&t, "castella") {
            Ok(Llengua::Castella)
        } else if es_paraula(&t, "angles") {
            Ok(Llengua::Angles)
        } else {
            assert forall|l: Llengua| value@ != #[trigger] nom_llengua(l) by {
                match l {
                    Llengua::Catala => {},
                    Llengua::Castella => {},
                    Llengua::Angles => {},
                }
            }
            Err(())
        }
    }
}

} // verus!
