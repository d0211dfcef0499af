//! The vocabulary of the planner: weekdays, sessions, groups, courses and the
//! records that a timetable places on its grid.
use vstd::prelude::*;

verus! {

/// First teaching hour of a day.
pub const PRIMERA_HORA: u32 = 8;

/// Hour at which the last teaching slot of a day ends.
pub const DARRERA_HORA: u32 = 14;

/// Number of weekdays (columns of the grid).
pub const DIES: usize = 5;

/// A weekday, Monday to Friday.
#[derive(Debug, Clone, Copy, PartialEq, Eq, Structural)]
pub enum DiaSetmana {
    Dilluns,
    Dimarts,
    Dimecres,
    Dijous,
    Divendres,
}

impl DiaSetmana {
    /// Column of the grid that this weekday occupies.
    pub open spec fn index_spec(self) -> int {
        match self {
            DiaSetmana::Dilluns => 0,
            DiaSetmana::Dimarts => 1,
            DiaSetmana::Dimecres => 2,
            DiaSetmana::Dijous => 3,
            DiaSetmana::Divendres => 4,
        }
    }

    /// Column of the grid that this weekday occupies.
    pub fn index(&self) -> (r: usize)
        ensures
            r == self.index_spec(),
            r < DIES,
    {
        match self {
            DiaSetmana::Dilluns => 0,
            DiaSetmana::Dimarts => 1,
            DiaSetmana::Dimecres => 2,
            DiaSetmana::Dijous => 3,
            DiaSetmana::Divendres => 4,
        }
    }
}

/// Whether a course is the lecture part or the lab part of a subject.
#[derive(Debug, Clone, Copy, PartialEq, Eq, Structural, Hash)]
pub enum AssigKind {
    Teoria,
    Lab,
}

impl AssigKind {
    /// One-letter tag: `t` for lectures, `l` for labs.
    pub fn to_char(&self) -> (r: char)
        ensures
            r == (match self {
                AssigKind::Teoria => 't',
                AssigKind::Lab => 'l',
            }),
    {
        match self {
            AssigKind::Teoria => 't',
            AssigKind::Lab => 'l',
        }
    }
}

/// Language in which a group is taught. `Angles` is the foreign one.
#[derive(Debug, Clone, Copy, PartialEq, Eq, Structural, Hash)]
pub enum Llengua {
    Catala,
    Castella,
    Angles,
}

impl Llengua {
    /// One-letter tag: `ç`, `ñ` or `a`.
    pub fn to_char(&self) -> (r: char)
        ensures
            r == (match self {
                Llengua::Catala => 'ç',
                Llengua::Castella => 'ñ',
                Llengua::Angles => 'a',
            }),
    {
        match self {
            Llengua::Catala => 'ç',
            Llengua::Castella => 'ñ',
            Llengua::Angles => 'a',
        }
    }
}

impl Default for Llengua {
    /// Catalan, the language a group is taught in unless it says otherwise.
    fn default() -> (r: Llengua)
        ensures
            r == Llengua::Catala,
    {
        Llengua::Catala
    }
}

/// One weekly occupied interval `[start, finish)` on a weekday.
#[derive(Debug, Clone, Copy, PartialEq, Eq, Structural)]
pub struct Sessio {
    pub dia: DiaSetmana,
    pub start: u32,
    pub finish: u32,
}

impl Sessio {
    /// The interval is non-empty and lies inside the teaching hours.
    pub open spec fn wf(self) -> bool {
        PRIMERA_HORA <= self.start < self.finish <= DARRERA_HORA
    }

    /// A session, when `start < finish` and both lie in the teaching hours.
    pub fn new(dia: DiaSetmana, start: u32, finish: u32) -> (r: Option<Sessio>)
        ensures
            r matches Some(s) <==> PRIMERA_HORA <= start < finish <= DARRERA_HORA,
            r matches Some(s) ==> s == (Sessio { dia, start, finish }),
    {
        if PRIMERA_HORA <= start && start < finish && finish <= DARRERA_HORA {
            Some(Sessio { dia, start, finish })
        } else {
            None
        }
    }
}

/// One offering of a course. Two groups are the same group when their number
/// and language agree; the sessions do not take part in that.
#[derive(Debug, Clone)]
pub struct Grup {
    pub num: usize,
    pub llengua: Llengua,
    pub sessions: Vec<Sessio>,
}

impl Grup {
    /// Every session of the group is well formed.
    pub open spec fn wf(self) -> bool {
        forall|s: int| 0 <= s < self.sessions@.len() ==> (#[trigger] self.sessions@[s]).wf()
    }

    pub fn new(num: usize, llengua: Llengua, sessions: Vec<Sessio>) -> (r: Grup)
        ensures
            r.num == num,
            r.llengua == llengua,
            r.sessions@ == sessions@,
    {
        Grup { num, llengua, sessions }
    }
}

impl Default for Grup {
    /// Group 0, in Catalan, with no session.
    fn default() -> (r: Grup)
        ensures
            r.num == 0,
            r.llengua == Llengua::Catala,
            r.sessions@.len() == 0,
    {
        Grup { num: 0, llengua: Llengua::Catala, sessions: Vec::new() }
    }
}

impl PartialEq for Grup {
    fn eq(&self, other: &Grup) -> (r: bool)
        ensures
            r == (self.num == other.num && self.llengua == other.llengua),
    {
        self.num == other.num && self.llengua == other.llengua
    }
}

impl vstd::std_specs::cmp::PartialEqSpecImpl for Grup {
    open spec fn obeys_eq_spec() -> bool {
        true
    }

    open spec fn eq_spec(&self, other: &Grup) -> bool {
        self.num == other.num && self.llengua == other.llengua
    }
}

impl Eq for Grup {
}

/// A course as read from the input: its name (without the `_L` / `_T`
/// suffix), whether it is a lecture or a lab, and the groups it offers.
#[derive(Debug, Clone, PartialEq)]
pub struct AssignaturaParse {
    pub nom: String,
    pub kind: Option<AssigKind>,
    pub grups: Vec<Grup>,
}

impl AssignaturaParse {
    /// Every group of the course is well formed.
    pub open spec fn wf(self) -> bool {
        forall|g: int| 0 <= g < self.grups@.len() ==> (#[trigger] self.grups@[g]).wf()
    }

    pub fn new(nom: String, kind: Option<AssigKind>, grups: Vec<Grup>) -> (r: AssignaturaParse)
        ensures
            r.nom == nom,
            r.kind == kind,
            r.grups@ == grups@,
    {
        AssignaturaParse { nom, kind, grups }
    }
}

/// One chosen group of one course.
#[derive(Debug, Clone)]
pub struct SelectedAssig {
    pub nom: String,
    pub grup: Grup,
    pub kind: Option<AssigKind>,
}

/// What a grid cell shows: course name, group number, language and kind.
#[derive(Debug, Clone, PartialEq)]
pub struct AssigDisplay {
    pub nom: String,
    pub grup: usize,
    pub llengua: Llengua,
    pub kind: Option<AssigKind>,
}

/// A candidate choice of one group per course, in the order of the courses.
#[derive(Debug, Clone)]
pub struct ProtoHorari(pub Vec<SelectedAssig>);

impl Default for ProtoHorari {
    /// The choice of no group at all.
    fn default() -> (r: ProtoHorari)
        ensures
            r.0@.len() == 0,
    {
        ProtoHorari(Vec::new())
    }
}

impl ProtoHorari {
    /// Every chosen group is well formed.
    pub open spec fn wf(self) -> bool {
        forall|i: int| 0 <= i < self.0@.len() ==> (#[trigger] self.0@[i]).grup.wf()
    }
}

} // verus!
