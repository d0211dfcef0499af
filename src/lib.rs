//! Weekly timetable planner: enumerates every choice of one group per course,
//! places each choice on a five-day grid of six hourly slots, drops the choices
//! whose sessions collide, and ranks the timetables that remain.
pub mod model;
pub mod horari;
pub mod colloca;
pub mod enumera;
pub mod lleis;
pub mod ordena;
pub mod parsing;
pub mod taula;

pub use enumera::{all_permutations, ErrorEstructural};
pub use horari::{Day, Horari};
pub use model::{
    AssigDisplay, AssigKind, AssignaturaParse, DiaSetmana, Grup, Llengua, ProtoHorari,
    SelectedAssig, Sessio,
};
pub use ordena::{comprova_estructura, filtra_valids, genera_horaris, ordena, Resultat};
pub use parsing::{parse_raw_horari, ErrorParse, MotiuParse};
