use horaritzador::{
    comprova_estructura, filtra_valids, genera_horaris, AssigKind, AssignaturaParse, DiaSetmana,
    ErrorEstructural, Grup, Llengua, ProtoHorari, SelectedAssig, Sessio,
};

fn sessio(dia: DiaSetmana, start: u32, finish: u32) -> Sessio {
    Sessio::new(dia, start, finish).unwrap()
}

fn curs(nom: &str, kind: Option<AssigKind>, grups: Vec<Grup>) -> AssignaturaParse {
    AssignaturaParse::new(nom.to_string(), kind, grups)
}

#[test]
fn cap_combinacio_valida() {
    let cursos = vec![
        curs("A", None, vec![Grup::new(1, Llengua::Catala, vec![sessio(DiaSetmana::Dilluns, 8, 10)])]),
        curs(
            "B",
            None,
            vec![
                Grup::new(1, Llengua::Catala, vec![sessio(DiaSetmana::Dilluns, 9, 10)]),
                Grup::new(2, Llengua::Angles, vec![sessio(DiaSetmana::Dilluns, 8, 9)]),
            ],
        ),
    ];
    let r = genera_horaris(&cursos).unwrap();
    assert!(r.horaris.is_empty());
    assert_eq!(r.combinacions, 2);
    assert_eq!(r.valids, 0);
}

#[test]
fn escenari_complet_ordenat() {
    let cursos = vec![
        curs("A", None, vec![Grup::new(1, Llengua::Catala, vec![sessio(DiaSetmana::Dilluns, 8, 10)])]),
        curs(
            "B",
            None,
            vec![
                Grup::new(1, Llengua::Catala, vec![sessio(DiaSetmana::Dilluns, 9, 11)]),
                Grup::new(2, Llengua::Angles, vec![sessio(DiaSetmana::Dimarts, 9, 11)]),
                Grup::new(3, Llengua::Castella, vec![sessio(DiaSetmana::Dimarts, 8, 9)]),
            ],
        ),
    ];
    let r = genera_horaris(&cursos).unwrap();
    assert_eq!(r.combinacions, 3);
    assert_eq!(r.valids, 2);
    assert_eq!(r.horaris.len(), 2);
    // Group 3 starts Tuesday at 8, which beats group 2.
    assert_eq!(r.horaris[0].quants_dies_comenca_tard(), 3);
    assert_eq!(r.horaris[0].0[1].0[0].as_ref().unwrap().grup, 3);
    assert_eq!(r.horaris[1].quants_dies_comenca_tard(), 4);
    assert_eq!(r.horaris[1].num_classes_angles(), 2);
}

#[test]
fn grup_de_teoria_mal_numerat() {
    let cursos = vec![
        curs("A", Some(AssigKind::Lab), vec![Grup::new(11, Llengua::Catala, vec![sessio(DiaSetmana::Dilluns, 8, 9)])]),
        curs(
            "A",
            Some(AssigKind::Teoria),
            vec![
                Grup::new(20, Llengua::Catala, vec![sessio(DiaSetmana::Dimarts, 8, 9)]),
                Grup::new(15, Llengua::Catala, vec![sessio(DiaSetmana::Dimarts, 9, 10)]),
            ],
        ),
    ];
    assert_eq!(
        genera_horaris(&cursos).unwrap_err(),
        ErrorEstructural::GrupTeoria { assignatura: 1, grup: 15 }
    );
    assert_eq!(
        comprova_estructura(&cursos),
        Err(ErrorEstructural::GrupTeoria { assignatura: 1, grup: 15 })
    );
}

#[test]
fn llista_buida_i_curs_sense_grups() {
    assert_eq!(genera_horaris(&vec![]).unwrap_err(), ErrorEstructural::CapAssignatura);
    let cursos = vec![
        curs("A", None, vec![Grup::new(1, Llengua::Catala, vec![sessio(DiaSetmana::Dilluns, 8, 9)])]),
        curs("B", Some(AssigKind::Teoria), vec![]),
    ];
    assert_eq!(genera_horaris(&cursos).unwrap_err(), ErrorEstructural::SenseGrups(1));
}

#[test]
fn estructura_correcta() {
    let cursos = vec![curs(
        "A",
        Some(AssigKind::Teoria),
        vec![Grup::new(10, Llengua::Catala, vec![sessio(DiaSetmana::Dilluns, 8, 9)])],
    )];
    assert_eq!(comprova_estructura(&cursos), Ok(()));
}

#[test]
fn filtre_conserva_ordre() {
    let tria = |nom: &str, dia: DiaSetmana| SelectedAssig {
        nom: nom.to_string(),
        grup: Grup::new(1, Llengua::Catala, vec![sessio(dia, 8, 9)]),
        kind: None,
    };
    let props = vec![
        ProtoHorari(vec![tria("P", DiaSetmana::Dilluns), tria("Q", DiaSetmana::Dimarts)]),
        ProtoHorari(vec![tria("P", DiaSetmana::Dilluns), tria("Q", DiaSetmana::Dilluns)]),
        ProtoHorari(vec![tria("R", DiaSetmana::Divendres)]),
    ];
    let hs = filtra_valids(&props);
    assert_eq!(hs.len(), 2);
    assert_eq!(hs[0].0[1].0[0].as_ref().unwrap().nom, "Q");
    assert_eq!(hs[1].0[4].0[0].as_ref().unwrap().nom, "R");
}
