use horaritzador::{
    all_permutations, AssigKind, AssignaturaParse, DiaSetmana, ErrorEstructural, Grup, Llengua,
    Sessio,
};

fn sessio(dia: DiaSetmana, start: u32, finish: u32) -> Sessio {
    Sessio::new(dia, start, finish).unwrap()
}

fn curs(nom: &str, kind: Option<AssigKind>, nums: &[usize]) -> AssignaturaParse {
    let grups = nums
        .iter()
        .map(|&n| Grup::new(n, Llengua::Catala, vec![sessio(DiaSetmana::Dilluns, 8, 9)]))
        .collect();
    AssignaturaParse::new(nom.to_string(), kind, grups)
}

fn triats(v: &[horaritzador::ProtoHorari]) -> Vec<Vec<(String, usize)>> {
    v.iter()
        .map(|p| p.0.iter().map(|a| (a.nom.clone(), a.grup.num)).collect())
        .collect()
}

#[test]
fn producte_de_tres_cursos() {
    let cursos = vec![curs("A", None, &[1, 2]), curs("B", None, &[10, 20, 30]), curs("C", None, &[5])];
    let v = all_permutations(&cursos).unwrap();
    assert_eq!(v.len(), 6);
    let t = triats(&v);
    let esperat: Vec<Vec<(String, usize)>> = vec![
        vec![("A".into(), 1), ("B".into(), 10), ("C".into(), 5)],
        vec![("A".into(), 1), ("B".into(), 20), ("C".into(), 5)],
        vec![("A".into(), 1), ("B".into(), 30), ("C".into(), 5)],
        vec![("A".into(), 2), ("B".into(), 10), ("C".into(), 5)],
        vec![("A".into(), 2), ("B".into(), 20), ("C".into(), 5)],
        vec![("A".into(), 2), ("B".into(), 30), ("C".into(), 5)],
    ];
    assert_eq!(t, esperat);
}

#[test]
fn combinacions_distintes() {
    let cursos = vec![curs("A", None, &[1, 2, 3]), curs("B", None, &[1, 2]), curs("C", None, &[1, 2])];
    let t = triats(&all_permutations(&cursos).unwrap());
    assert_eq!(t.len(), 12);
    for i in 0..t.len() {
        for j in 0..t.len() {
            if i != j {
                assert_ne!(t[i], t[j]);
            }
        }
    }
}

#[test]
fn un_sol_curs() {
    let cursos = vec![curs("A", Some(AssigKind::Lab), &[11, 12, 13])];
    let v = all_permutations(&cursos).unwrap();
    assert_eq!(triats(&v), vec![vec![("A".to_string(), 11)], vec![("A".to_string(), 12)], vec![("A".to_string(), 13)]]);
    assert!(v.iter().all(|p| p.0[0].kind == Some(AssigKind::Lab)));
}

#[test]
fn cap_curs_es_error() {
    assert_eq!(all_permutations(&vec![]).unwrap_err(), ErrorEstructural::CapAssignatura);
}

#[test]
fn curs_sense_grups_es_error() {
    let cursos = vec![curs("A", None, &[1]), curs("B", None, &[]), curs("C", None, &[])];
    assert_eq!(all_permutations(&cursos).unwrap_err(), ErrorEstructural::SenseGrups(1));
}

#[test]
fn grup_conserva_sessions() {
    let g = Grup::new(3, Llengua::Angles, vec![sessio(DiaSetmana::Dijous, 9, 11), sessio(DiaSetmana::Divendres, 12, 14)]);
    let cursos = vec![AssignaturaParse::new("X".to_string(), None, vec![g])];
    let v = all_permutations(&cursos).unwrap();
    assert_eq!(v[0].0[0].grup.sessions, vec![sessio(DiaSetmana::Dijous, 9, 11), sessio(DiaSetmana::Divendres, 12, 14)]);
    assert_eq!(v[0].0[0].grup.llengua, Llengua::Angles);
}

#[test]
fn igualtat_de_grups() {
    let a = Grup::new(11, Llengua::Catala, vec![sessio(DiaSetmana::Dilluns, 8, 9)]);
    let b = Grup::new(11, Llengua::Catala, vec![sessio(DiaSetmana::Divendres, 12, 14)]);
    let c = Grup::new(11, Llengua::Angles, vec![sessio(DiaSetmana::Dilluns, 8, 9)]);
    let d = Grup::new(12, Llengua::Catala, vec![sessio(DiaSetmana::Dilluns, 8, 9)]);
    assert!(a == b);
    assert!(a != c);
    assert!(a != d);
}
