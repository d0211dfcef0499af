use horaritzador::{
    parse_raw_horari, AssigKind, DiaSetmana, ErrorParse, Llengua, MotiuParse, Sessio,
};

#[test]
fn llegeix_dos_cursos() {
    let text = "Algebra_T\n10 catala dilluns 8 10 dimecres 8 10\n20 angles dimarts 10 12\n\nAlgebra_L\n11,12 catala\n  dijous 12 14\n21 castella divendres 8 10\n";
    let v = parse_raw_horari(text).unwrap();
    assert_eq!(v.len(), 2);
    assert_eq!(v[0].nom, "Algebra");
    assert_eq!(v[0].kind, Some(AssigKind::Teoria));
    assert_eq!(v[0].grups.len(), 2);
    assert_eq!(v[0].grups[0].num, 10);
    assert_eq!(v[0].grups[0].llengua, Llengua::Catala);
    assert_eq!(
        v[0].grups[0].sessions,
        vec![
            Sessio { dia: DiaSetmana::Dilluns, start: 8, finish: 10 },
            Sessio { dia: DiaSetmana::Dimecres, start: 8, finish: 10 },
        ]
    );
    assert_eq!(v[0].grups[1].llengua, Llengua::Angles);
    assert_eq!(v[1].nom, "Algebra");
    assert_eq!(v[1].kind, Some(AssigKind::Lab));
    let nums: Vec<usize> = v[1].grups.iter().map(|g| g.num).collect();
    assert_eq!(nums, vec![11, 12, 21]);
    assert_eq!(v[1].grups[1].sessions, vec![Sessio { dia: DiaSetmana::Dijous, start: 12, finish: 14 }]);
    assert_eq!(v[1].grups[2].llengua, Llengua::Castella);
}

#[test]
fn nom_sense_sufix() {
    let v = parse_raw_horari("  Fisica\n1 catala dilluns 8 9").unwrap();
    assert_eq!(v[0].nom, "Fisica");
    assert_eq!(v[0].kind, None);
    let v = parse_raw_horari("_L\n1 catala dilluns 8 9").unwrap();
    assert_eq!(v[0].nom, "_L");
    assert_eq!(v[0].kind, None);
    let v = parse_raw_horari("Química_L\n1 catala dilluns 8 9").unwrap();
    assert_eq!(v[0].nom, "Química");
    assert_eq!(v[0].kind, Some(AssigKind::Lab));
}

#[test]
fn errors_de_lectura() {
    assert_eq!(parse_raw_horari(""), Err(ErrorParse { posicio: 0, motiu: MotiuParse::CapAssignatura }));
    assert_eq!(parse_raw_horari(" \n\t").unwrap_err().motiu, MotiuParse::CapAssignatura);
    assert_eq!(parse_raw_horari("A\n").unwrap_err().motiu, MotiuParse::SenseGrups);
    assert_eq!(
        parse_raw_horari("A\n1 frances dilluns 8 9"),
        Err(ErrorParse { posicio: 4, motiu: MotiuParse::LlenguaDesconeguda })
    );
    assert_eq!(parse_raw_horari("A\n1 catala").unwrap_err().motiu, MotiuParse::SenseSessions);
    assert_eq!(
        parse_raw_horari("A\n1 catala dilluns 8 15"),
        Err(ErrorParse { posicio: 11, motiu: MotiuParse::HoraFora })
    );
    assert_eq!(parse_raw_horari("A\n1 catala dilluns 8").unwrap_err().motiu, MotiuParse::NumeroInvalid);
    assert_eq!(
        parse_raw_horari("A\n99999999999 catala dilluns 8 9"),
        Err(ErrorParse { posicio: 2, motiu: MotiuParse::NumeroInvalid })
    );
    assert_eq!(parse_raw_horari("A\n1, catala dilluns 8 9").unwrap_err().motiu, MotiuParse::NumeroInvalid);
}

#[test]
fn noms_de_dies_i_llengues() {
    assert_eq!(DiaSetmana::try_from("dimecres"), Ok(DiaSetmana::Dimecres));
    assert_eq!(DiaSetmana::try_from("divendres"), Ok(DiaSetmana::Divendres));
    assert_eq!(DiaSetmana::try_from("Dimecres"), Err(()));
    assert_eq!(DiaSetmana::try_from("dilluns "), Err(()));
    assert_eq!(Llengua::try_from("castella"), Ok(Llengua::Castella));
    assert_eq!(Llengua::try_from("angles"), Ok(Llengua::Angles));
    assert_eq!(Llengua::try_from("cat"), Err(()));
    assert_eq!(Llengua::Angles.to_char(), 'a');
    assert_eq!(AssigKind::Lab.to_char(), 'l');
}

#[test]
fn forma_canonica_es_llegeix_igual() {
    let text = "Xarxes_T\n10 catala dilluns 8 10 dijous 12 13\n20 angles dimarts 9 11\nXarxes_L\n11 catala divendres 8 10\n";
    let v = parse_raw_horari(text).unwrap();
    assert_eq!(v.len(), 2);
    assert_eq!((v[0].nom.as_str(), v[0].kind), ("Xarxes", Some(AssigKind::Teoria)));
    assert_eq!((v[1].nom.as_str(), v[1].kind), ("Xarxes", Some(AssigKind::Lab)));
    assert_eq!(v[0].grups[0].sessions.len(), 2);
    assert_eq!(v[0].grups[1].num, 20);
    assert_eq!(v[0].grups[1].llengua, Llengua::Angles);
    assert_eq!(v[1].grups[0].sessions, vec![Sessio { dia: DiaSetmana::Divendres, start: 8, finish: 10 }]);
}
