use horaritzador::taula::text_decimal;
use horaritzador::{AssigDisplay, AssigKind, Grup, Horari, Llengua, ProtoHorari, SelectedAssig};

fn entrada(nom: &str, grup: usize, llengua: Llengua, kind: Option<AssigKind>) -> Option<AssigDisplay> {
    Some(AssigDisplay { nom: nom.to_string(), grup, llengua, kind })
}

#[test]
fn nombres_decimals() {
    assert_eq!(text_decimal(0), "0");
    assert_eq!(text_decimal(7), "7");
    assert_eq!(text_decimal(10), "10");
    assert_eq!(text_decimal(1234), "1234");
}

#[test]
fn taula_de_l_escenari() {
    let mut h = Horari::buit();
    h.0[0].0[0] = entrada("A", 1, Llengua::Catala, None);
    h.0[0].0[1] = entrada("A", 1, Llengua::Catala, None);
    h.0[1].0[1] = entrada("B", 2, Llengua::Angles, None);
    h.0[1].0[2] = entrada("B", 2, Llengua::Angles, None);
    h.0[4].0[5] = entrada("Fisica", 12, Llengua::Castella, Some(AssigKind::Lab));
    let buida = "             |";
    let mut esperat = String::new();
    esperat.push_str("|      |    Dilluns  |    Dimarts  |   Dimecres  |    Dijous   |  Divendres  |\n");
    esperat.push_str(&"-".repeat(78));
    esperat.push('\n');
    esperat.push_str(&format!("|     8|   A     1(ç)|{b}{b}{b}{b}\n", b = buida));
    esperat.push_str(&format!("|     9|   A     1(ç)|   B     2(a)|{b}{b}{b}\n", b = buida));
    esperat.push_str(&format!("|    10|{b}   B     2(a)|{b}{b}{b}\n", b = buida));
    esperat.push_str(&format!("|    11|{b}{b}{b}{b}{b}\n", b = buida));
    esperat.push_str(&format!("|    12|{b}{b}{b}{b}{b}\n", b = buida));
    esperat.push_str(&format!("|    13|{b}{b}{b}{b}Fisica_l  12(ñ)|\n", b = buida));
    assert_eq!(h.taula(), esperat);
}

#[test]
fn descripcio_de_la_tria() {
    let p = ProtoHorari(vec![
        SelectedAssig { nom: "A".to_string(), grup: Grup::new(1, Llengua::Catala, vec![]), kind: None },
        SelectedAssig {
            nom: "Xarxes".to_string(),
            grup: Grup::new(21, Llengua::Angles, vec![]),
            kind: Some(AssigKind::Teoria),
        },
    ]);
    assert_eq!(p.descripcio(), "A1 Xarxes21 ");
}
