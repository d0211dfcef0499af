use horaritzador::{ordena, AssigDisplay, AssigKind, Horari, Llengua};
use std::cmp::Ordering;

fn entrada(nom: &str, grup: usize, llengua: Llengua, kind: Option<AssigKind>) -> Option<AssigDisplay> {
    Some(AssigDisplay { nom: nom.to_string(), grup, llengua, kind })
}

/// A week with a class at 8 on the first `vuit` weekdays and, when `ple`, a
/// class in every weekday (so that no weekday is free).
fn setmana(vuit: usize, ple: bool, angles: usize) -> Horari {
    let mut h = Horari::buit();
    for d in 0..vuit {
        h.0[d].0[0] = entrada("X", 1, Llengua::Catala, None);
    }
    if ple {
        for d in 0..5 {
            h.0[d].0[5] = entrada("Y", 1, Llengua::Castella, None);
        }
    }
    for k in 0..angles {
        h.0[k % 5].0[1 + k / 5] = entrada("Z", 1, Llengua::Angles, None);
    }
    h
}

#[test]
fn comptadors_de_criteris() {
    let h = setmana(2, false, 7);
    assert_eq!(h.quants_dies_comenca_tard(), 3);
    assert!(h.comenca_a_les_vuit());
    assert_eq!(h.num_classes_angles(), 7);
    assert!(!h.te_dia_lliure());
    assert_eq!(h.grups_same_teoria_lab(), 0);
    let h2 = setmana(0, false, 3);
    assert!(h2.te_dia_lliure());
    assert!(!h2.comenca_a_les_vuit());
    assert_eq!(h2.quants_dies_comenca_tard(), 5);
}

#[test]
fn parells_teoria_lab() {
    let mut h = Horari::buit();
    h.0[0].0[0] = entrada("A", 10, Llengua::Catala, Some(AssigKind::Teoria));
    h.0[1].0[0] = entrada("A", 10, Llengua::Catala, Some(AssigKind::Teoria));
    h.0[2].0[0] = entrada("A", 12, Llengua::Catala, Some(AssigKind::Lab));
    h.0[3].0[0] = entrada("A", 21, Llengua::Catala, Some(AssigKind::Lab));
    h.0[4].0[0] = entrada("B", 11, Llengua::Catala, Some(AssigKind::Lab));
    h.0[4].0[1] = entrada("A", 13, Llengua::Catala, None);
    // Two lecture slots of family 1 against one lab slot of family 1, both ways.
    assert_eq!(h.grups_same_teoria_lab(), 4);
}

#[test]
fn dies_tard_decideix_primer() {
    // `a` starts late on fewer days; every other criterion favours `b`.
    let mut a = setmana(3, true, 0);
    a.0[0].0[2] = entrada("A", 10, Llengua::Catala, Some(AssigKind::Teoria));
    a.0[1].0[2] = entrada("A", 11, Llengua::Catala, Some(AssigKind::Lab));
    let b = setmana(2, false, 9);
    assert!(a.grups_same_teoria_lab() > b.grups_same_teoria_lab());
    assert_eq!(a.cmp(&b), Ordering::Greater);
    assert_eq!(b.cmp(&a), Ordering::Less);
}

#[test]
fn parells_decideixen_despres() {
    let mut a = setmana(2, true, 9);
    a.0[0].0[4] = entrada("A", 10, Llengua::Catala, Some(AssigKind::Teoria));
    a.0[1].0[4] = entrada("A", 11, Llengua::Catala, Some(AssigKind::Lab));
    let b = setmana(2, false, 0);
    assert_eq!(a.grups_same_teoria_lab(), 2);
    assert_eq!(b.cmp(&a), Ordering::Greater);
}

#[test]
fn dia_lliure_decideix_despres() {
    let a = setmana(2, false, 0);
    let b = setmana(2, true, 9);
    assert_eq!(a.cmp(&b), Ordering::Greater);
    assert_eq!(b.cmp(&a), Ordering::Less);
}

#[test]
fn angles_decideix_al_final() {
    let a = setmana(2, true, 4);
    let b = setmana(2, true, 3);
    assert_eq!(a.cmp(&b), Ordering::Greater);
    assert_eq!(a.partial_cmp(&b), Some(Ordering::Greater));
    assert!(a > b);
}

#[test]
fn empat_en_tot() {
    let a = setmana(2, true, 4);
    let mut b = setmana(2, true, 4);
    b.0[0].0[0] = entrada("Altre", 7, Llengua::Castella, None);
    assert_eq!(a.cmp(&b), Ordering::Equal);
    assert!(a == b);
}

#[test]
fn ordre_total_i_transitiu() {
    let hs = vec![setmana(1, true, 0), setmana(2, false, 3), setmana(2, true, 5), setmana(3, false, 1), setmana(2, false, 3)];
    for a in &hs {
        for b in &hs {
            let ab = a.cmp(b);
            assert_eq!(ab, b.cmp(a).reverse());
            for c in &hs {
                if ab != Ordering::Less && b.cmp(c) != Ordering::Less {
                    assert_ne!(a.cmp(c), Ordering::Less);
                }
            }
        }
    }
}

#[test]
fn ordena_millor_primer_i_idempotent() {
    let mut hs = vec![setmana(1, true, 0), setmana(2, false, 3), setmana(3, true, 5), setmana(2, true, 5), setmana(2, false, 1)];
    ordena(&mut hs);
    let claus: Vec<(usize, usize, bool, usize)> = hs
        .iter()
        .map(|h| (h.quants_dies_comenca_tard(), h.grups_same_teoria_lab(), h.te_dia_lliure(), h.num_classes_angles()))
        .collect();
    assert_eq!(
        claus,
        vec![(2, 0, false, 5), (3, 0, true, 3), (3, 0, true, 1), (3, 0, false, 5), (4, 0, false, 0)]
    );
    let abans = format!("{:?}", hs);
    ordena(&mut hs);
    assert_eq!(format!("{:?}", hs), abans);
}

#[test]
fn ordena_estable() {
    let a = setmana(2, true, 4);
    let mut b = setmana(2, true, 4);
    b.0[0].0[0] = entrada("Segon", 1, Llengua::Catala, None);
    let mut hs = vec![setmana(0, true, 0), a, b];
    ordena(&mut hs);
    assert_eq!(hs[0].0[0].0[0], entrada("X", 1, Llengua::Catala, None));
    assert_eq!(hs[1].0[0].0[0], entrada("Segon", 1, Llengua::Catala, None));
    assert_eq!(hs[2].quants_dies_comenca_tard(), 5);
}
