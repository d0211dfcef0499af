use horaritzador::{
    all_permutations, AssigDisplay, AssigKind, AssignaturaParse, DiaSetmana, Grup, Horari,
    Llengua, ProtoHorari, SelectedAssig, Sessio,
};

fn sessio(dia: DiaSetmana, start: u32, finish: u32) -> Sessio {
    Sessio::new(dia, start, finish).unwrap()
}

fn triat(nom: &str, num: usize, llengua: Llengua, kind: Option<AssigKind>, sessions: Vec<Sessio>) -> SelectedAssig {
    SelectedAssig { nom: nom.to_string(), grup: Grup::new(num, llengua, sessions), kind }
}

fn entrada(nom: &str, grup: usize, llengua: Llengua, kind: Option<AssigKind>) -> Option<AssigDisplay> {
    Some(AssigDisplay { nom: nom.to_string(), grup, llengua, kind })
}

#[test]
fn escenari_dos_cursos() {
    let a = AssignaturaParse::new(
        "A".to_string(),
        None,
        vec![Grup::new(1, Llengua::Catala, vec![sessio(DiaSetmana::Dilluns, 8, 10)])],
    );
    let b = AssignaturaParse::new(
        "B".to_string(),
        None,
        vec![
            Grup::new(1, Llengua::Catala, vec![sessio(DiaSetmana::Dilluns, 9, 11)]),
            Grup::new(2, Llengua::Angles, vec![sessio(DiaSetmana::Dimarts, 9, 11)]),
        ],
    );
    let mut v = all_permutations(&vec![a, b]).unwrap();
    assert_eq!(v.len(), 2);
    let segona = v.pop().unwrap();
    let primera = v.pop().unwrap();
    assert_eq!(primera.0[1].grup.num, 1);
    assert_eq!(segona.0[1].grup.num, 2);
    assert!(Horari::try_from(primera).is_err());
    let h = Horari::try_from(segona).unwrap();
    assert_eq!(h.0[0].0[0], entrada("A", 1, Llengua::Catala, None));
    assert_eq!(h.0[0].0[1], entrada("A", 1, Llengua::Catala, None));
    assert_eq!(h.0[0].0[2], None);
    assert_eq!(h.0[1].0[0], None);
    assert_eq!(h.0[1].0[1], entrada("B", 2, Llengua::Angles, None));
    assert_eq!(h.0[1].0[2], entrada("B", 2, Llengua::Angles, None));
    assert_eq!(h.0[1].0[3], None);
    assert!(h.te_dia_lliure());
    assert_eq!(h.quants_dies_comenca_tard(), 4);
    assert!(h.comenca_a_les_vuit());
    assert_eq!(h.num_classes_angles(), 2);
}

#[test]
fn solapament_rebutjat() {
    let p = ProtoHorari(vec![
        triat("A", 1, Llengua::Catala, None, vec![sessio(DiaSetmana::Dimecres, 10, 13)]),
        triat("B", 2, Llengua::Catala, None, vec![sessio(DiaSetmana::Dimecres, 12, 14)]),
    ]);
    assert_eq!(Horari::try_from(p), Err(()));
}

#[test]
fn solapament_dins_el_mateix_grup() {
    let p = ProtoHorari(vec![triat(
        "A",
        1,
        Llengua::Catala,
        None,
        vec![sessio(DiaSetmana::Dijous, 8, 10), sessio(DiaSetmana::Dijous, 9, 10)],
    )]);
    assert!(Horari::try_from(p).is_err());
}

#[test]
fn sessions_contigues_no_xoquen() {
    let p = ProtoHorari(vec![
        triat("A", 10, Llengua::Castella, Some(AssigKind::Teoria), vec![sessio(DiaSetmana::Divendres, 8, 10)]),
        triat("A", 11, Llengua::Angles, Some(AssigKind::Lab), vec![sessio(DiaSetmana::Divendres, 10, 14)]),
    ]);
    let h = Horari::colloca(&p).unwrap();
    for k in 0..2 {
        assert_eq!(h.0[4].0[k], entrada("A", 10, Llengua::Castella, Some(AssigKind::Teoria)));
    }
    for k in 2..6 {
        assert_eq!(h.0[4].0[k], entrada("A", 11, Llengua::Angles, Some(AssigKind::Lab)));
    }
    for d in 0..4 {
        for k in 0..6 {
            assert_eq!(h.0[d].0[k], None);
        }
    }
    assert_eq!(h.as_iter().len(), 6);
}

#[test]
fn seleccio_buida_dona_graella_buida() {
    let h = Horari::try_from(ProtoHorari(vec![])).unwrap();
    assert_eq!(h.quants_dies_comenca_tard(), 5);
    assert!(!h.comenca_a_les_vuit());
    assert!(h.te_dia_lliure());
    assert_eq!(h.num_classes_angles(), 0);
    assert_eq!(h.as_iter().len(), 0);
}

#[test]
fn sessio_fora_de_rang() {
    assert!(Sessio::new(DiaSetmana::Dilluns, 7, 9).is_none());
    assert!(Sessio::new(DiaSetmana::Dilluns, 13, 15).is_none());
    assert!(Sessio::new(DiaSetmana::Dilluns, 10, 10).is_none());
    assert!(Sessio::new(DiaSetmana::Dilluns, 11, 10).is_none());
    assert_eq!(
        Sessio::new(DiaSetmana::Dilluns, 8, 14),
        Some(Sessio { dia: DiaSetmana::Dilluns, start: 8, finish: 14 })
    );
}

#[test]
fn valors_per_defecte() {
    let h = Horari::default();
    assert_eq!(h.quants_dies_comenca_tard(), 5);
    assert!(h.as_iter().is_empty());
    assert_eq!(Llengua::default(), Llengua::Catala);
    let g = Grup::default();
    assert_eq!((g.num, g.llengua, g.sessions.len()), (0, Llengua::Catala, 0));
    assert!(ProtoHorari::default().0.is_empty());
    assert!(horaritzador::Day::default().0.iter().all(|c| c.is_none()));
}
