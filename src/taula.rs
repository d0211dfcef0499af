//! The text form of a timetable: a table with one column per weekday and one
//! row per hour, and the one-line form of a choice of groups.
use vstd::prelude::*;
use vstd::seq_lib::lemma_concat_associative;
use vstd::string::{StrSliceExecFns, StringExecFns};
use crate::horari::Horari;
use crate::model::{AssigDisplay, AssigKind, Llengua, ProtoHorari};

verus! {

/// `n` spaces (none when `n` is not positive).
pub open spec fn espais(n: int) -> Seq<char> {
    Seq::new(if n > 0 { n as nat } else { 0 }, |i: int| ' ')
}

/// `s` right-aligned in a field of width `w`; a longer `s` is kept whole.
pub open spec fn alinea(s: Seq<char>, w: int) -> Seq<char> {
    espais(w - s.len()) + s
}

/// The character of the decimal digit `d`.
pub open spec fn car_xifra(d: int) -> char {
    if d == 0 {
        '0'
    } else if d == 1 {
        '1'
    } else if d == 2 {
        '2'
    } else if d == 3 {
        '3'
    } else if d == 4 {
        '4'
    } else if d == 5 {
        '5'
    } else if d == 6 {
        '6'
    } else if d == 7 {
        '7'
    } else if d == 8 {
        '8'
    } else {
        '9'
    }
}

/// The decimal form of `n`, without leading zeros.
pub open spec fn decimal(n: nat) -> Seq<char>
    decreases n,
{
    if n < 10 {
        seq![car_xifra(n as int)]
    } else {
        decimal(n / 10).push(car_xifra((n % 10) as int))
    }
}

/// The decimal form of `n`.
pub fn text_decimal(n: usize) -> (r: String)
    ensures
        r@ == decimal(n as nat),
    decreases n,
{
    let mut s = if n >= 10 {
        text_decimal(n / 10)
    } else {
        String::new()
    };
    let d = n % 10;
    let x = if d == 0 {
        "0"
    } else if d == 1 {
        "1"
    } else if d == 2 {
        "2"
    } else if d == 3 {
        "3"
    } else if d == 4 {
        "4"
    } else if d == 5 {
        "5"
    } else if d == 6 {
        "6"
    } else if d == 7 {
        "7"
    } else if d == 8 {
        "8"
    } else {
        "9"
    };
    proof {
        reveal_strlit("0");
        reveal_strlit("1");
        reveal_strlit("2");
        reveal_strlit("3");
        reveal_strlit("4");
        reveal_strlit("5");
        reveal_strlit("6");
        reveal_strlit("7");
        reveal_strlit("8");
        reveal_strlit("9");
        assert(x@ =~= seq![car_xifra(d as int)]);
    }
    s.append(x);
    proof {
        if n < 10 {
            assert(s@ =~= decimal(n as nat));
        } else {
            assert(s@ =~= decimal(n as nat));
        }
    }
    s
}

/// Appends `n` spaces.
fn afegeix_espais(s: &mut String, n: usize)
    ensures
        final(s)@ == old(s)@ + espais(n as int),
{
    let mut i: usize = 0;
    while i < n
        invariant
            0 <= i <= n,
            s@ == old(s)@ + espais(i as int),
        decreases n - i,
    {
        proof {
            reveal_strlit(" ");
        }
        s.append(" ");
        assert(s@ =~= old(s)@ + espais(i + 1));
        i += 1;
    }
}

/// Appends `t` right-aligned in a field of width `w`.
fn afegeix_alineat(s: &mut String, t: &str, w: usize)
    ensures
        final(s)@ == old(s)@ + alinea(t@, w as int),
{
    let n = t.unicode_len();
    if n < w {
        afegeix_espais(s, w - n);
    } else {
        afegeix_espais(s, 0);
        assert(espais(w - t@.len()) =~= espais(0));
    }
    s.append(t);
    assert(s@ =~= old(s)@ + alinea(t@, w as int));
}

/// The tag of a course kind: `_t`, `_l`, or nothing.
pub open spec fn text_tipus(k: Option<AssigKind>) -> Seq<char> {
    match k {
        Some(AssigKind::Teoria) => seq!['_', 't'],
        Some(AssigKind::Lab) => seq!['_', 'l'],
        None => seq![],
    }
}

/// The tag of a language: `ç`, `ñ` or `a`.
pub open spec fn car_llengua(l: Llengua) -> char {
    match l {
        Llengua::Catala => 'ç',
        Llengua::Castella => 'ñ',
        Llengua::Angles => 'a',
    }
}

/// A cell of the table, 13 characters wide when the name has at most four,
/// followed by `|`.
pub open spec fn text_cella(c: Option<AssigDisplay>) -> Seq<char> {
    match c {
        Some(a) => alinea(a.nom@, 4) + alinea(text_tipus(a.kind), 2) + alinea(
            decimal(a.grup as nat),
            4,
        ) + seq!['(', car_llengua(a.llengua), ')', '|'],
        None => espais(13) + seq!['|'],
    }
}

/// Appends a cell of the table.
fn afegeix_cella(s: &mut String, c: &Option<AssigDisplay>)
    ensures
        final(s)@ == old(s)@ + text_cella(*c),
{
    match c {
        Some(a) => {
            afegeix_alineat(s, a.nom.as_str(), 4);
            let tipus = match a.kind {
                Some(AssigKind::Teoria) => "_t",
                Some(AssigKind::Lab) => "_l",
                None => "",
            };
            proof {
                reveal_strlit("_t");
                reveal_strlit("_l");
                reveal_strlit("");
                assert(tipus@ =~= text_tipus(a.kind));
            }
            afegeix_alineat(s, tipus, 2);
            let num = text_decimal(a.grup);
            afegeix_alineat(s, num.as_str(), 4);
            let llengua = match a.llengua {
                Llengua::Catala => "(ç)|",
                Llengua::Castella => "(ñ)|",
                Llengua::Angles => "(a)|",
            };
            proof {
                reveal_strlit("(ç)|");
                reveal_strlit("(ñ)|");
                reveal_strlit("(a)|");
                assert(llengua@ =~= seq!['(', car_llengua(a.llengua), ')', '|']);
            }
            s.append(llengua);
            assert(s@ =~= old(s)@ + text_cella(*c));
        },
        None => {
            afegeix_espais(s, 13);
            proof {
                reveal_strlit("|");
            }
            s.append("|");
            assert(s@ =~= old(s)@ + text_cella(*c));
        },
    }
}

/// The row of the hour that starts at `8 + k`.
pub open spec fn text_fila(h: Horari, k: int) -> Seq<char> {
    seq!['|'] + alinea(decimal((k + 8) as nat), 6) + seq!['|'] + text_cella(h.cella(0, k))
        + text_cella(h.cella(1, k)) + text_cella(h.cella(2, k)) + text_cella(h.cella(3, k))
        + text_cella(h.cella(4, k)) + seq!['\n']
}

/// The cells of the first `n` weekdays in the row of slot `k`.
pub open spec fn text_cel_les(h: Horari, k: int, n: int) -> Seq<char>
    decreases n,
{
    if n <= 0 {
        seq![]
    } else {
        text_cel_les(h, k, n - 1) + text_cella(h.cella(n - 1, k))
    }
}

/// The rows of the first `n` hours.
pub open spec fn text_files(h: Horari, n: int) -> Seq<char>
    decreases n,
{
    if n <= 0 {
        seq![]
    } else {
        text_files(h, n - 1) + text_fila(h, n - 1)
    }
}

/// The title row of the table.
pub open spec fn capcalera() -> Seq<char> {
    "|      |    Dilluns  |    Dimarts  |   Dimecres  |    Dijous   |  Divendres  |"@
}

/// The whole table: the title row, a rule of dashes as long as it, and the
/// six hour rows.
pub open spec fn text_taula(h: Horari) -> Seq<char> {
    capcalera() + seq!['\n'] + Seq::new(capcalera().len(), |i: int| '-') + seq!['\n']
        + text_files(h, 6)
}

/// Appends the row of the hour that starts at `8 + k`.
fn afegeix_fila(s: &mut String, h: &Horari, k: usize)
    requires
        k < 6,
    ensures
        final(s)@ == old(s)@ + text_fila(*h, k as int),
{
    let ghost o = s@;
    proof {
        reveal_strlit("|");
        reveal_strlit("\n");
    }
    s.append("|");
    let ghost acc = seq!['|'];
    let hora = text_decimal(k + 8);
    afegeix_alineat(s, hora.as_str(), 6);
    proof {
        lemma_concat_associative(o, acc, alinea(decimal((k + 8) as nat), 6));
        acc = acc + alinea(decimal((k + 8) as nat), 6);
    }
    s.append("|");
    proof {
        lemma_concat_associative(o, acc, seq!['|']);
        acc = acc + seq!['|'];
    }
    let mut d: usize = 0;
    while d < 5
        invariant
            0 <= d <= 5,
            k < 6,
            s@ == o + acc,
            acc == seq!['|'] + alinea(decimal((k + 8) as nat), 6) + seq!['|'] + text_cel_les(
                *h,
                k as int,
                d as int,
            ),
        decreases 5 - d,
    {
        afegeix_cella(s, &h.0[d].0[k]);
        proof {
            lemma_concat_associative(o, acc, text_cella(h.cella(d as int, k as int)));
            lemma_concat_associative(
                seq!['|'] + alinea(decimal((k + 8) as nat), 6) + seq!['|'],
                text_cel_les(*h, k as int, d as int),
                text_cella(h.cella(d as int, k as int)),
            );
            acc = acc + text_cella(h.cella(d as int, k as int));
        }
        d += 1;
    }
    s.append("\n");
    proof {
        lemma_concat_associative(o, acc, seq!['\n']);
        let c = text_cel_les(*h, k as int, 5);
        let pre = seq!['|'] + alinea(decimal((k + 8) as nat), 6) + seq!['|'];
        lemma_concat_associative(pre, c, seq!['\n']);
        let c0 = text_cella(h.cella(0, k as int));
        let c1 = text_cella(h.cella(1, k as int));
        let c2 = text_cella(h.cella(2, k as int));
        let c3 = text_cella(h.cella(3, k as int));
        let c4 = text_cella(h.cella(4, k as int));
        assert(text_cel_les(*h, k as int, 0) =~= seq![]);
        assert(text_cel_les(*h, k as int, 1) =~= c0);
        assert(text_cel_les(*h, k as int, 2) == c0 + c1);
        assert(text_cel_les(*h, k as int, 3) == c0 + c1 + c2);
        assert(text_cel_les(*h, k as int, 4) == c0 + c1 + c2 + c3);
        assert(c == c0 + c1 + c2 + c3 + c4);
        lemma_concat_associative(pre, c0 + c1 + c2 + c3, c4);
        lemma_concat_associative(pre, c0 + c1 + c2, c3);
        lemma_concat_associative(pre, c0 + c1, c2);
        lemma_concat_associative(pre, c0, c1);
    }
}

impl Horari {
    /// The timetable as a table, one column per weekday and one row per hour.
    pub fn taula(&self) -> (r: String)
        ensures
            r@ == text_taula(*self),
    {
        let titol = "|      |    Dilluns  |    Dimarts  |   Dimecres  |    Dijous   |  Divendres  |";
        let mut s = String::from_str(titol);
        proof {
            reveal_strlit("\n");
            reveal_strlit("-");
        }
        s.append("\n");
        let n = titol.unicode_len();
        let mut i: usize = 0;
        while i < n
            invariant
                n == capcalera().len(),
                0 <= i <= n,
                s@ == capcalera() + seq!['\n'] + Seq::new(i as nat, |j: int| '-'),
            decreases n - i,
        {
            proof {
                reveal_strlit("-");
            }
            s.append("-");
            assert(s@ =~= capcalera() + seq!['\n'] + Seq::new((i + 1) as nat, |j: int| '-'));
            i += 1;
        }
        s.append("\n");
        let ghost inici = s@;
        let mut k: usize = 0;
        while k < 6
            invariant
                0 <= k <= 6,
                s@ == inici + text_files(*self, k as int),
                inici == capcalera() + seq!['\n'] + Seq::new(capcalera().len(), |j: int| '-') + seq!['\n'],
            decreases 6 - k,
        {
            let ghost abans = s@;
            afegeix_fila(&mut s, self, k);
            assert(s@ =~= inici + text_files(*self, k + 1));
            k += 1;
        }
        s
    }
}

/// The choice written as each course name followed by its group number and a
/// space.
pub open spec fn text_proto(sel: Seq<crate::model::SelectedAssig>) -> Seq<char>
    decreases sel.len(),
{
    if sel.len() == 0 {
        seq![]
    } else {
        text_proto(sel.drop_last()) + sel.last().nom@ + decimal(sel.last().grup.num as nat) + seq![' ']
    }
}

impl ProtoHorari {
    /// Each course name followed by its group number and a space.
    pub fn descripcio(&self) -> (r: String)
        ensures
            r@ == text_proto(self.0@),
    {
        let mut s = String::new();
        let mut i: usize = 0;
        while i < self.0.len()
            invariant
                0 <= i <= self.0@.len(),
                s@ == text_proto(self.0@.take(i as int)),
            decreases self.0@.len() - i,
        {
            assert(self.0@.take(i + 1).drop_last() =~= self.0@.take(i as int));
            let a = &self.0[i];
            s.append(a.nom.as_str());
            let num = text_decimal(a.grup.num);
            s.append(num.as_str());
            proof {
                reveal_strlit(" ");
            }
            s.append(" ");
            assert(s@ =~= text_proto(self.0@.take(i + 1)));
            i += 1;
        }
        assert(self.0@.take(self.0@.len() as int) =~= self.0@);
        s
    }
}

} // verus!
