//! The catalog's persistence format: a pretty-printed JSON array of
//! objects with the fields `titre`, `auteur`, `isbn` and
//! `annee_publication`, in that key order, two-space indented. The empty
//! catalog is written `[]`. The writer and the reader are both verified
//! against the same specification, and reading back what was written
//! yields the catalog that was written, exactly.

use vstd::prelude::*;

use crate::livre::{Livre, LivreVue};
use crate::texte::{char_depuis, chaine_depuis, vers_chars};

verus! {

// ---------------------------------------------------------------------
// Characters: digits, hexadecimal digits, escapes
// ---------------------------------------------------------------------
/// Whether `c` is a decimal digit.
pub open spec fn est_chiffre(c: char) -> bool {
    48 <= c as u32 <= 57
}

/// The numeric value of a decimal digit.
pub open spec fn valeur_chiffre(c: char) -> int {
    c as u32 - 48
}

/// The decimal digit character for a value below ten.
pub open spec fn chiffre_de(n: int) -> char {
    if n == 0 {
        '0'
    } else if n == 1 {
        '1'
    } else if n == 2 {
        '2'
    } else if n == 3 {
        '3'
    } else if n == 4 {
        '4'
    } else if n == 5 {
        '5'
    } else if n == 6 {
        '6'
    } else if n == 7 {
        '7'
    } else if n == 8 {
        '8'
    } else {
        '9'
    }
}

/// Whether `c` is a lowercase hexadecimal digit.
pub open spec fn est_hex(c: char) -> bool {
    est_chiffre(c) || (97 <= c as u32 <= 102)
}

/// The numeric value of a lowercase hexadecimal digit.
pub open spec fn valeur_hex(c: char) -> int {
    if est_chiffre(c) {
        valeur_chiffre(c)
    } else {
        c as u32 - 87
    }
}

/// The lowercase hexadecimal digit character for a value below sixteen.
pub open spec fn chiffre_hex(n: int) -> char {
    if n < 10 {
        chiffre_de(n)
    } else if n == 10 {
        'a'
    } else if n == 11 {
        'b'
    } else if n == 12 {
        'c'
    } else if n == 13 {
        'd'
    } else if n == 14 {
        'e'
    } else {
        'f'
    }
}

/// The character with scalar value `v`, for `v` below the surrogate range.
pub open spec fn car_de_u32(v: u32) -> char {
    choose|c: char| (#[trigger] (c as u32)) == v
}

// ---------------------------------------------------------------------
// Decimal rendering of the publication year
// ---------------------------------------------------------------------
/// The canonical decimal digits of `n`, most significant first.
pub open spec fn decimal_de(n: nat) -> Seq<char>
    decreases n,
{
    if n < 10 {
        seq![chiffre_de(n as int)]
    } else {
        decimal_de(n / 10).push(chiffre_de((n % 10) as int))
    }
}

// ---------------------------------------------------------------------
// String escaping
// ---------------------------------------------------------------------
/// The escape of one character inside a quoted string: quote and
/// backslash get a backslash escape, the common control characters get
/// their named escapes, the remaining control characters get `\u00` and
/// two lowercase hexadecimal digits, and every other character stands
/// for itself.
pub open spec fn echapper_car(c: char) -> Seq<char> {
    if c == '"' {
        seq!['\\', '"']
    } else if c == '\\' {
        seq!['\\', '\\']
    } else if c == '\u{8}' {
        seq!['\\', 'b']
    } else if c == '\t' {
        seq!['\\', 't']
    } else if c == '\n' {
        seq!['\\', 'n']
    } else if c == '\u{c}' {
        seq!['\\', 'f']
    } else if c == '\r' {
        seq!['\\', 'r']
    } else if (c as u32) < 32 {
        seq!['\\', 'u', '0', '0', chiffre_hex((c as u32 / 16) as int), chiffre_hex((c as u32 % 16) as int)]
    } else {
        seq![c]
    }
}

/// The escape of a whole string, character by character.
pub open spec fn echapper(s: Seq<char>) -> Seq<char>
    decreases s.len(),
{
    if s.len() == 0 {
        Seq::empty()
    } else {
        echapper_car(s[0]) + echapper(s.skip(1))
    }
}

// ---------------------------------------------------------------------
// The fixed pieces of the format
// ---------------------------------------------------------------------
/// `[]`: the whole file for an empty catalog.
pub open spec fn gabarit_vide() -> Seq<char> {
    seq!['[', ']']
}

/// `[` and a newline: the opening of a non-empty catalog.
pub open spec fn gabarit_ouvre() -> Seq<char> {
    seq!['[', '\n']
}

/// The opening of one record, up to the quote of the title value.
pub open spec fn gabarit_titre() -> Seq<char> {
    seq![' ', ' ', '{', '\n', ' ', ' ', ' ', ' ', '"', 't', 'i', 't', 'r', 'e', '"', ':', ' ', '"']
}

/// From the end of the title value to the quote of the author value.
pub open spec fn gabarit_auteur() -> Seq<char> {
    seq![',', '\n', ' ', ' ', ' ', ' ', '"', 'a', 'u', 't', 'e', 'u', 'r', '"', ':', ' ', '"']
}

/// From the end of the author value to the quote of the isbn value.
pub open spec fn gabarit_isbn() -> Seq<char> {
    seq![',', '\n', ' ', ' ', ' ', ' ', '"', 'i', 's', 'b', 'n', '"', ':', ' ', '"']
}

/// From the end of the isbn value to the year value.
pub open spec fn gabarit_annee() -> Seq<char> {
    seq![
        ',',
        '\n',
        ' ',
        ' ',
        ' ',
        ' ',
        '"',
        'a',
        'n',
        'n',
        'e',
        'e',
        '_',
        'p',
        'u',
        'b',
        'l',
        'i',
        'c',
        'a',
        't',
        'i',
        'o',
        'n',
        '"',
        ':',
        ' ',
    ]
}

/// The closing of one record.
pub open spec fn gabarit_ferme() -> Seq<char> {
    seq!['\n', ' ', ' ', '}']
}

/// The separator between two records.
pub open spec fn gabarit_virgule() -> Seq<char> {
    seq![',', '\n']
}

/// The closing of a non-empty catalog.
pub open spec fn gabarit_fin() -> Seq<char> {
    seq!['\n', ']']
}

/// A closing quote.
pub open spec fn guillemet() -> Seq<char> {
    seq!['"']
}

// ---------------------------------------------------------------------
// The encoding of a catalog
// ---------------------------------------------------------------------
/// The text of one record.
pub open spec fn encodage_livre(l: LivreVue) -> Seq<char> {
    gabarit_titre() + echapper(l.titre) + guillemet() + gabarit_auteur() + echapper(l.auteur)
        + guillemet() + gabarit_isbn() + echapper(l.isbn) + guillemet() + gabarit_annee()
        + decimal_de(l.annee_publication as nat) + gabarit_ferme()
}

/// The text of one or more records, separated by `gabarit_virgule`.
pub open spec fn encodage_livres(ls: Seq<LivreVue>) -> Seq<char>
    decreases ls.len(),
{
    if ls.len() == 0 {
        Seq::empty()
    } else if ls.len() == 1 {
        encodage_livre(ls[0])
    } else {
        encodage_livre(ls[0]) + gabarit_virgule() + encodage_livres(ls.skip(1))
    }
}

/// The full text of a catalog.
pub open spec fn encodage_catalogue(ls: Seq<LivreVue>) -> Seq<char> {
    if ls.len() == 0 {
        gabarit_vide()
    } else {
        gabarit_ouvre() + encodage_livres(ls) + gabarit_fin()
    }
}

// ---------------------------------------------------------------------
// The reading of a catalog text
// ---------------------------------------------------------------------
/// Whether `gab` stands in `s` at position `i`.
pub open spec fn correspond(s: Seq<char>, i: int, gab: Seq<char>) -> bool {
    0 <= i && i + gab.len() <= s.len() && s.subrange(i, i + gab.len() as int) == gab
}

/// Reading a fixed piece: the position after it, if it stands at `i`.
pub open spec fn lire_gabarit(s: Seq<char>, i: int, gab: Seq<char>) -> Option<int> {
    if correspond(s, i, gab) {
        Some(i + gab.len() as int)
    } else {
        None
    }
}

/// Reading one escape, from the backslash at `i`: the character it
/// stands for and the position after the escape.
pub open spec fn lire_echappement(s: Seq<char>, i: int) -> Option<(char, int)> {
    if 0 <= i && i + 2 <= s.len() {
        let c = s[i + 1];
        if c == '"' {
            Some(('"', i + 2))
        } else if c == '\\' {
            Some(('\\', i + 2))
        } else if c == 'b' {
            Some(('\u{8}', i + 2))
        } else if c == 't' {
            Some(('\t', i + 2))
        } else if c == 'n' {
            Some(('\n', i + 2))
        } else if c == 'f' {
            Some(('\u{c}', i + 2))
        } else if c == 'r' {
            Some(('\r', i + 2))
        } else if c == 'u' {
            if i + 6 <= s.len() && s[i + 2] == '0' && s[i + 3] == '0' && est_hex(s[i + 4])
                && est_hex(s[i + 5]) {
                Some((car_de_u32((16 * valeur_hex(s[i + 4]) + valeur_hex(s[i + 5])) as u32), i + 6))
            } else {
                None
            }
        } else {
            None
        }
    } else {
        None
    }
}

/// Reading a quoted string's content from `i`, past its closing quote:
/// the unescaped characters and the position after the quote.
pub open spec fn lire_chaine(s: Seq<char>, i: int) -> Option<(Seq<char>, int)>
    decreases s.len() - i,
{
    if i < 0 || i >= s.len() {
        None
    } else if s[i] == '"' {
        Some((Seq::empty(), i + 1))
    } else if s[i] == '\\' {
        match lire_echappement(s, i) {
            Some((c, j)) => {
                if i < j && j <= s.len() {
                    match lire_chaine(s, j) {
                        Some((t, k)) => Some((seq![c] + t, k)),
                        None => None,
                    }
                } else {
                    None
                }
            },
            None => None,
        }
    } else if (s[i] as u32) < 32 {
        None
    } else {
        match lire_chaine(s, i + 1) {
            Some((t, k)) => Some((seq![s[i]] + t, k)),
            None => None,
        }
    }
}

/// Reading digits from `i` with accumulated value `acc`; stops at the
/// first position that does not hold a digit, fails if the value would
/// not fit.
pub open spec fn lire_nombre_acc(s: Seq<char>, i: int, acc: u32) -> Option<(u32, int)>
    decreases s.len() - i,
{
    if 0 <= i && i < s.len() && est_chiffre(s[i]) {
        let v = acc as int * 10 + valeur_chiffre(s[i]);
        if v > u32::MAX as int {
            None
        } else {
            lire_nombre_acc(s, i + 1, v as u32)
        }
    } else {
        Some((acc, i))
    }
}

/// Reading a number: at least one digit, greedily, into a `u32`.
pub open spec fn lire_nombre(s: Seq<char>, i: int) -> Option<(u32, int)> {
    if 0 <= i && i < s.len() && est_chiffre(s[i]) {
        lire_nombre_acc(s, i, 0)
    } else {
        None
    }
}

/// Reading one record from `i`: its fixed pieces and its four values.
pub open spec fn lire_livre(s: Seq<char>, i: int) -> Option<(LivreVue, int)> {
    match lire_gabarit(s, i, gabarit_titre()) {
        None => None,
        Some(i1) => match lire_chaine(s, i1) {
            None => None,
            Some((titre, i2)) => match lire_gabarit(s, i2, gabarit_auteur()) {
                None => None,
                Some(i3) => match lire_chaine(s, i3) {
                    None => None,
                    Some((auteur, i4)) => match lire_gabarit(s, i4, gabarit_isbn()) {
                        None => None,
                        Some(i5) => match lire_chaine(s, i5) {
                            None => None,
                            Some((isbn, i6)) => match lire_gabarit(s, i6, gabarit_annee()) {
                                None => None,
                                Some(i7) => match lire_nombre(s, i7) {
                                    None => None,
                                    Some((annee, i8)) => match lire_gabarit(
                                        s,
                                        i8,
                                        gabarit_ferme(),
                                    ) {
                                        None => None,
                                        Some(i9) => Some(
                                            (
                                                LivreVue {
                                                    titre: titre,
                                                    auteur: auteur,
                                                    isbn: isbn,
                                                    annee_publication: annee,
                                                },
                                                i9,
                                            ),
                                        ),
                                    },
                                },
                            },
                        },
                    },
                },
            },
        },
    }
}

/// Reading one or more records separated by `gabarit_virgule`.
pub open spec fn lire_livres(s: Seq<char>, i: int) -> Option<(Seq<LivreVue>, int)>
    decreases s.len() - i,
{
    match lire_livre(s, i) {
        None => None,
        Some((l, j)) => {
            if correspond(s, j, gabarit_virgule()) {
                if i < j {
                    match lire_livres(s, j + 2) {
                        None => None,
                        Some((reste, k)) => Some((seq![l] + reste, k)),
                    }
                } else {
                    None
                }
            } else {
                Some((seq![l], j))
            }
        },
    }
}

/// Reading a whole catalog text: `[]`, or the records between the
/// opening and the closing, with nothing after the closing.
pub open spec fn lire_catalogue(s: Seq<char>) -> Option<Seq<LivreVue>> {
    if s == gabarit_vide() {
        Some(Seq::empty())
    } else {
        match lire_gabarit(s, 0, gabarit_ouvre()) {
            None => None,
            Some(i) => match lire_livres(s, i) {
                None => None,
                Some((ls, j)) => {
                    if j + 2 == s.len() && correspond(s, j, gabarit_fin()) {
                        Some(ls)
                    } else {
                        None
                    }
                },
            },
        }
    }
}

// ---------------------------------------------------------------------
// Lemmas on the encoding
// ---------------------------------------------------------------------
/// A character with a given scalar value is the only one with it.
proof fn lemme_car_de_u32(c: char)
    ensures
        car_de_u32(c as u32) == c,
{
    assert((c as u32) == (c as u32));
}

/// Escaping distributes over appending one character at the end.
proof fn lemme_echapper_push(s: Seq<char>, c: char)
    ensures
        echapper(s.push(c)) == echapper(s) + echapper_car(c),
    decreases s.len(),
{
    if s.len() == 0 {
        assert(s.push(c).skip(1) =~= Seq::<char>::empty());
        assert(echapper(Seq::<char>::empty()) == Seq::<char>::empty());
        assert(s.push(c)[0] == c);
        assert(echapper(s.push(c)) =~= echapper(s) + echapper_car(c));
    } else {
        assert(s.push(c).skip(1) =~= s.skip(1).push(c));
        lemme_echapper_push(s.skip(1), c);
        assert(echapper(s.push(c)) =~= echapper(s) + echapper_car(c));
    }
}

/// The text of a sequence of records grows at the end by a separator and
/// one record's text.
proof fn lemme_encodage_livres_push(ls: Seq<LivreVue>, l: LivreVue)
    requires
        ls.len() >= 1,
    ensures
        encodage_livres(ls.push(l)) == encodage_livres(ls) + gabarit_virgule() + encodage_livre(l),
    decreases ls.len(),
{
    if ls.len() == 1 {
        assert(ls.push(l).skip(1) =~= seq![l]);
        assert(encodage_livres(seq![l]) == encodage_livre(l));
        assert(ls.push(l)[0] == ls[0]);
        assert(encodage_livres(ls.push(l)) =~= encodage_livres(ls) + gabarit_virgule()
            + encodage_livre(l));
    } else {
        assert(ls.push(l).skip(1) =~= ls.skip(1).push(l));
        lemme_encodage_livres_push(ls.skip(1), l);
        assert(encodage_livres(ls.push(l)) =~= encodage_livres(ls) + gabarit_virgule()
            + encodage_livre(l));
    }
}

// ---------------------------------------------------------------------
// The exec writer
// ---------------------------------------------------------------------
/// The decimal digit character for a value below ten.
fn chiffre_exec(d: u32) -> (c: char)
    requires
        d < 10,
    ensures
        c == chiffre_de(d as int),
{
    if d == 0 {
        '0'
    } else if d == 1 {
        '1'
    } else if d == 2 {
        '2'
    } else if d == 3 {
        '3'
    } else if d == 4 {
        '4'
    } else if d == 5 {
        '5'
    } else if d == 6 {
        '6'
    } else if d == 7 {
        '7'
    } else if d == 8 {
        '8'
    } else {
        '9'
    }
}

/// The lowercase hexadecimal digit character for a value below sixteen.
fn chiffre_hex_exec(d: u32) -> (c: char)
    requires
        d < 16,
    ensures
        c == chiffre_hex(d as int),
{
    if d < 10 {
        chiffre_exec(d)
    } else if d == 10 {
        'a'
    } else if d == 11 {
        'b'
    } else if d == 12 {
        'c'
    } else if d == 13 {
        'd'
    } else if d == 14 {
        'e'
    } else {
        'f'
    }
}

/// Appends the characters of `ajout` to `out`.
fn ajouter_seq(out: &mut Vec<char>, ajout: &Vec<char>)
    ensures
        final(out)@ == old(out)@ + ajout@,
{
    let mut i: usize = 0;
    while i < ajout.len()
        invariant
            i <= ajout.len(),
            out@ == old(out)@ + ajout@.take(i as int),
        decreases ajout.len() - i,
    {
        out.push(ajout[i]);
        i += 1;
        proof {
            assert(old(out)@ + ajout@.take(i as int) =~= (old(out)@ + ajout@.take(i - 1)).push(
                ajout@[i - 1],
            ));
        }
    }
    proof {
        assert(old(out)@ + ajout@.take(ajout@.len() as int) =~= old(out)@ + ajout@);
    }
}

/// Appends the decimal digits of `n` to `out`.
fn ecrire_nombre(out: &mut Vec<char>, n: u32)
    ensures
        final(out)@ == old(out)@ + decimal_de(n as nat),
    decreases n,
{
    if n < 10 {
        out.push(chiffre_exec(n));
        proof {
            assert(out@ =~= old(out)@ + decimal_de(n as nat));
        }
    } else {
        ecrire_nombre(out, n / 10);
        out.push(chiffre_exec(n % 10));
        proof {
            assert(out@ =~= old(out)@ + decimal_de(n as nat));
        }
    }
}

/// Appends the escape of one character to `out`.
fn ecrire_car_echappe(out: &mut Vec<char>, c: char)
    ensures
        final(out)@ == old(out)@ + echapper_car(c),
{
    if c == '"' {
        out.push('\\');
        out.push('"');
        proof {
            assert(out@ =~= old(out)@ + echapper_car(c));
        }
    } else if c == '\\' {
        out.push('\\');
        out.push('\\');
        proof {
            assert(out@ =~= old(out)@ + echapper_car(c));
        }
    } else if c == '\u{8}' {
        out.push('\\');
        out.push('b');
        proof {
            assert(out@ =~= old(out)@ + echapper_car(c));
        }
    } else if c == '\t' {
        out.push('\\');
        out.push('t');
        proof {
            assert(out@ =~= old(out)@ + echapper_car(c));
        }
    } else if c == '\n' {
        out.push('\\');
        out.push('n');
        proof {
            assert(out@ =~= old(out)@ + echapper_car(c));
        }
    } else if c == '\u{c}' {
        out.push('\\');
        out.push('f');
        proof {
            assert(out@ =~= old(out)@ + echapper_car(c));
        }
    } else if c == '\r' {
        out.push('\\');
        out.push('r');
        proof {
            assert(out@ =~= old(out)@ + echapper_car(c));
        }
    } else if (c as u32) < 32 {
        out.push('\\');
        out.push('u');
        out.push('0');
        out.push('0');
        out.push(chiffre_hex_exec((c as u32) / 16));
        out.push(chiffre_hex_exec((c as u32) % 16));
        proof {
            assert(out@ =~= old(out)@ + echapper_car(c));
        }
    } else {
        out.push(c);
        proof {
            assert(out@ =~= old(out)@ + echapper_car(c));
        }
    }
}

/// Appends the escaped form of `s` to `out`.
fn ecrire_chaine_echappee(out: &mut Vec<char>, s: &str)
    ensures
        final(out)@ == old(out)@ + echapper(s@),
{
    let cs = vers_chars(s);
    let mut i: usize = 0;
    while i < cs.len()
        invariant
            cs@ == s@,
            i <= cs.len(),
            out@ == old(out)@ + echapper(s@.take(i as int)),
        decreases cs.len() - i,
    {
        ecrire_car_echappe(out, cs[i]);
        i += 1;
        proof {
            assert(s@.take(i as int) =~= s@.take(i - 1).push(s@[i - 1]));
            lemme_echapper_push(s@.take(i - 1), s@[i - 1]);
            assert(out@ =~= old(out)@ + echapper(s@.take(i as int)));
        }
    }
    proof {
        assert(s@.take(s@.len() as int) =~= s@);
    }
}

/// The opening of one record, as running characters.
fn gabarit_titre_exec() -> (r: Vec<char>)
    ensures
        r@ == gabarit_titre(),
{
    let r = vers_chars("  {\n    \"titre\": \"");
    proof {
        reveal_strlit("  {\n    \"titre\": \"");
        assert(r@ =~= gabarit_titre());
    }
    r
}

/// The text between the title and author values, as running characters.
fn gabarit_auteur_exec() -> (r: Vec<char>)
    ensures
        r@ == gabarit_auteur(),
{
    let r = vers_chars(",\n    \"auteur\": \"");
    proof {
        reveal_strlit(",\n    \"auteur\": \"");
        assert(r@ =~= gabarit_auteur());
    }
    r
}

/// The text between the author and isbn values, as running characters.
fn gabarit_isbn_exec() -> (r: Vec<char>)
    ensures
        r@ == gabarit_isbn(),
{
    let r = vers_chars(",\n    \"isbn\": \"");
    proof {
        reveal_strlit(",\n    \"isbn\": \"");
        assert(r@ =~= gabarit_isbn());
    }
    r
}

/// The text between the isbn and year values, as running characters.
fn gabarit_annee_exec() -> (r: Vec<char>)
    ensures
        r@ == gabarit_annee(),
{
    let r = vers_chars(",\n    \"annee_publication\": ");
    proof {
        reveal_strlit(",\n    \"annee_publication\": ");
        assert(r@ =~= gabarit_annee());
    }
    r
}

/// Appends the text of one record to `out`.
fn ecrire_livre(out: &mut Vec<char>, l: &Livre)
    ensures
        final(out)@ == old(out)@ + encodage_livre(l@),
{
    let g1 = gabarit_titre_exec();
    ajouter_seq(out, &g1);
    ecrire_chaine_echappee(out, l.titre.as_str());
    out.push('"');
    let g2 = gabarit_auteur_exec();
    ajouter_seq(out, &g2);
    ecrire_chaine_echappee(out, l.auteur.as_str());
    out.push('"');
    let g3 = gabarit_isbn_exec();
    ajouter_seq(out, &g3);
    ecrire_chaine_echappee(out, l.isbn.as_str());
    out.push('"');
    let g4 = gabarit_annee_exec();
    ajouter_seq(out, &g4);
    ecrire_nombre(out, l.annee_publication);
    out.push('\n');
    out.push(' ');
    out.push(' ');
    out.push('}');
    proof {
        assert(out@ =~= old(out)@ + encodage_livre(l@));
    }
}

// ---------------------------------------------------------------------
// Reading back what was written
// ---------------------------------------------------------------------
/// A match on a concatenation splits into matches on the parts.
proof fn lemme_correspond_division(s: Seq<char>, i: int, a: Seq<char>, b: Seq<char>)
    requires
        correspond(s, i, a + b),
    ensures
        correspond(s, i, a),
        correspond(s, i + a.len(), b),
{
    assert forall|k: int| 0 <= k < a.len() implies s[i + k] == a[k] by {
        assert(s.subrange(i, i + (a + b).len() as int)[k] == s[i + k]);
        assert((a + b)[k] == a[k]);
    }
    assert forall|k: int| 0 <= k < b.len() implies s[i + a.len() + k] == b[k] by {
        assert(s.subrange(i, i + (a + b).len() as int)[a.len() + k] == s[i + a.len() + k]);
        assert((a + b)[a.len() + k] == b[k]);
    }
    assert(s.subrange(i, i + a.len() as int) =~= a);
    assert(s.subrange(i + a.len() as int, i + a.len() + b.len() as int) =~= b);
}

/// Ten to the power `k`.
spec fn puissance10(k: nat) -> int
    decreases k,
{
    if k == 0 {
        1
    } else {
        10 * puissance10((k - 1) as nat)
    }
}

/// Powers of ten are at least one.
proof fn lemme_puissance10_positive(k: nat)
    ensures
        puissance10(k) >= 1,
    decreases k,
{
    if k > 0 {
        lemme_puissance10_positive((k - 1) as nat);
    }
}

/// The value of a run of decimal digits, read left to right.
spec fn valeur_sequence(ds: Seq<char>) -> int
    decreases ds.len(),
{
    if ds.len() == 0 {
        0
    } else {
        valeur_sequence(ds.drop_last()) * 10 + valeur_chiffre(ds.last())
    }
}

/// A run of digits has a non-negative value below ten to its length.
proof fn lemme_valeur_sequence_bornes(ds: Seq<char>)
    requires
        forall|k: int| 0 <= k < ds.len() ==> est_chiffre(#[trigger] ds[k]),
    ensures
        0 <= valeur_sequence(ds) < puissance10(ds.len()),
    decreases ds.len(),
{
    if ds.len() == 0 {
    } else {
        assert(forall|k: int|
            0 <= k < ds.drop_last().len() ==> est_chiffre(#[trigger] ds.drop_last()[k]));
        lemme_valeur_sequence_bornes(ds.drop_last());
        assert(est_chiffre(ds.last()));
    }
}

/// Reading a run of digits from the left takes off the leading digit.
proof fn lemme_valeur_sequence_gauche(s: Seq<char>, i: int, j: int)
    requires
        0 <= i < j <= s.len(),
    ensures
        valeur_sequence(s.subrange(i, j)) == valeur_chiffre(s[i]) * puissance10((j - i - 1) as nat)
            + valeur_sequence(s.subrange(i + 1, j)),
    decreases j - i,
{
    if j - i == 1 {
        assert(s.subrange(i, j) =~= seq![s[i]]);
        assert(s.subrange(i + 1, j) =~= Seq::<char>::empty());
        assert(seq![s[i]].drop_last() =~= Seq::<char>::empty());
        assert(valeur_sequence(Seq::<char>::empty()) == 0);
        assert(valeur_sequence(seq![s[i]]) == valeur_chiffre(s[i]));
        assert(puissance10(0) == 1);
    } else {
        lemme_valeur_sequence_gauche(s, i, j - 1);
        assert(s.subrange(i, j).drop_last() =~= s.subrange(i, j - 1));
        assert(s.subrange(i + 1, j).drop_last() =~= s.subrange(i + 1, j - 1));
        assert(s.subrange(i, j).last() == s[j - 1]);
        assert(s.subrange(i + 1, j).last() == s[j - 1]);
        let d = valeur_chiffre(s[i]);
        let p = puissance10((j - i - 2) as nat);
        assert((d * p) * 10 == d * (10 * p)) by (nonlinear_arith);
        assert(valeur_sequence(s.subrange(i, j)) == valeur_sequence(s.subrange(i, j - 1)) * 10
            + valeur_chiffre(s[j - 1]));
        assert(valeur_sequence(s.subrange(i + 1, j)) == valeur_sequence(s.subrange(i + 1, j - 1))
            * 10 + valeur_chiffre(s[j - 1]));
        assert((d * p + valeur_sequence(s.subrange(i + 1, j - 1))) * 10 == d * p * 10
            + valeur_sequence(s.subrange(i + 1, j - 1)) * 10) by (nonlinear_arith);
    }
}

/// Reading digits with an accumulator yields the scaled accumulator plus
/// the run's value, when that fits.
proof fn lemme_lire_nombre_acc(s: Seq<char>, i: int, j: int, acc: u32)
    requires
        0 <= i <= j <= s.len(),
        forall|k: int| i <= k < j ==> est_chiffre(#[trigger] s[k]),
        j == s.len() || !est_chiffre(s[j]),
        acc as int * puissance10((j - i) as nat) + valeur_sequence(s.subrange(i, j))
            <= u32::MAX as int,
    ensures
        lire_nombre_acc(s, i, acc) == Some(
            (
                ((acc as int * puissance10((j - i) as nat) + valeur_sequence(
                    s.subrange(i, j),
                )) as u32),
                j,
            ),
        ),
    decreases j - i,
{
    if i == j {
        assert(s.subrange(i, j) =~= Seq::<char>::empty());
        assert(lire_nombre_acc(s, i, acc) == Some((acc, i)));
    } else {
        assert(est_chiffre(s[i]));
        let d = valeur_chiffre(s[i]);
        let p = puissance10((j - i - 1) as nat);
        lemme_valeur_sequence_gauche(s, i, j);
        assert(forall|k: int| i + 1 <= k < j ==> est_chiffre(#[trigger] s[k]));
        assert(forall|k: int|
            0 <= k < s.subrange(i + 1, j).len() ==> est_chiffre(#[trigger] s.subrange(i + 1, j)[k]));
        lemme_valeur_sequence_bornes(s.subrange(i + 1, j));
        lemme_puissance10_positive((j - i - 1) as nat);
        let v = acc as int * 10 + d;
        assert(acc as int * puissance10((j - i) as nat) == (acc as int * 10) * p)
            by (nonlinear_arith)
            requires
                puissance10((j - i) as nat) == 10 * p,
        ;
        assert(v * p == (acc as int * 10) * p + d * p) by (nonlinear_arith)
            requires
                v == acc as int * 10 + d,
        ;
        assert(v <= v * p) by (nonlinear_arith)
            requires
                v >= 0,
                p >= 1,
        ;
        assert(v * p + valeur_sequence(s.subrange(i + 1, j)) == acc as int * puissance10(
            (j - i) as nat,
        ) + valeur_sequence(s.subrange(i, j)));
        assert(v <= u32::MAX as int);
        lemme_lire_nombre_acc(s, i + 1, j, v as u32);
    }
}

/// The digits that `decimal_de` writes carry the written value.
proof fn lemme_valeur_decimal(n: nat)
    ensures
        decimal_de(n).len() >= 1,
        forall|k: int| 0 <= k < decimal_de(n).len() ==> est_chiffre(#[trigger] decimal_de(n)[k]),
        valeur_sequence(decimal_de(n)) == n,
    decreases n,
{
    broadcast use vstd::arithmetic::div_mod::lemma_fundamental_div_mod;

    if n < 10 {
        assert(decimal_de(n) =~= seq![chiffre_de(n as int)]);
        assert(seq![chiffre_de(n as int)].drop_last() =~= Seq::<char>::empty());
        assert(est_chiffre(chiffre_de(n as int)));
        assert(valeur_sequence(Seq::<char>::empty()) == 0);
        assert(valeur_sequence(seq![chiffre_de(n as int)]) == valeur_chiffre(chiffre_de(n as int)));
        assert(valeur_chiffre(chiffre_de(n as int)) == n);
    } else {
        lemme_valeur_decimal(n / 10);
        assert(decimal_de(n).drop_last() =~= decimal_de(n / 10));
        assert(decimal_de(n).last() == chiffre_de((n % 10) as int));
        assert(est_chiffre(chiffre_de((n % 10) as int)));
        assert(valeur_chiffre(chiffre_de((n % 10) as int)) == n % 10);
        assert(valeur_sequence(decimal_de(n)) == valeur_sequence(decimal_de(n / 10)) * 10
            + valeur_chiffre(chiffre_de((n % 10) as int)));
        assert(n as int == 10 * (n as int / 10) + n as int % 10);
        assert forall|k: int|
            0 <= k < decimal_de(n).len() implies est_chiffre(#[trigger] decimal_de(n)[k]) by {
            if k < decimal_de(n / 10).len() {
                assert(decimal_de(n)[k] == decimal_de(n / 10)[k]);
            } else {
                assert(decimal_de(n)[k] == chiffre_de((n % 10) as int));
            }
        }
    }
}

/// Reading a written number, followed by something that is not a digit,
/// yields the number back.
proof fn lemme_lire_nombre_enc(s: Seq<char>, i: int, n: u32)
    requires
        correspond(s, i, decimal_de(n as nat)),
        i + decimal_de(n as nat).len() == s.len() || !est_chiffre(s[i + decimal_de(
            n as nat,
        ).len()]),
    ensures
        lire_nombre(s, i) == Some((n, i + decimal_de(n as nat).len())),
{
    let ds = decimal_de(n as nat);
    let j = i + ds.len() as int;
    lemme_valeur_decimal(n as nat);
    assert(s.subrange(i, j) == ds);
    assert(forall|k: int| i <= k < j ==> est_chiffre(#[trigger] s[k])) by {
        assert(forall|k: int| i <= k < j ==> s[k] == s.subrange(i, j)[k - i]);
    }
    lemme_puissance10_positive(ds.len());
    lemme_lire_nombre_acc(s, i, j, 0);
    assert(est_chiffre(s[i]));
    assert(0 * puissance10(ds.len()) + valeur_sequence(s.subrange(i, j)) == n as int);
}

/// The hexadecimal digit characters carry their values.
proof fn lemme_hex(n: int)
    requires
        0 <= n < 16,
    ensures
        est_hex(chiffre_hex(n)),
        valeur_hex(chiffre_hex(n)) == n,
{
}

/// Reading a written, escaped string followed by its closing quote
/// yields the string back.
proof fn lemme_lire_chaine_enc(s: Seq<char>, i: int, t: Seq<char>)
    requires
        correspond(s, i, echapper(t) + guillemet()),
    ensures
        lire_chaine(s, i) == Some((t, i + echapper(t).len() + 1)),
    decreases t.len(),
{
    broadcast use vstd::arithmetic::div_mod::lemma_fundamental_div_mod;

    if t.len() == 0 {
        assert(echapper(t) == Seq::<char>::empty());
        assert(echapper(t) + guillemet() =~= guillemet());
        assert(s.subrange(i, i + 1)[0] == s[i]);
        assert(guillemet()[0] == '"');
        assert(s[i] == '"');
        assert(t =~= Seq::<char>::empty());
    } else {
        let c = t[0];
        let e = echapper_car(c);
        assert(echapper(t) == e + echapper(t.skip(1)));
        assert(echapper(t) + guillemet() =~= e + (echapper(t.skip(1)) + guillemet()));
        lemme_correspond_division(s, i, e, echapper(t.skip(1)) + guillemet());
        let j = i + e.len() as int;
        lemme_lire_chaine_enc(s, j, t.skip(1));
        assert(seq![c] + t.skip(1) =~= t);
        if c == '"' || c == '\\' || c == '\u{8}' || c == '\t' || c == '\n' || c == '\u{c}' || c
            == '\r' {
            assert(s[i] == '\\' && s[i + 1] == e[1]);
            assert(lire_echappement(s, i) == Some((c, i + 2)));
        } else if (c as u32) < 32 {
            let h = c as u32 / 16;
            let b = c as u32 % 16;
            lemme_hex(h as int);
            lemme_hex(b as int);
            assert(s[i] == '\\' && s[i + 1] == 'u' && s[i + 2] == '0' && s[i + 3] == '0');
            assert(s[i + 4] == chiffre_hex(h as int) && s[i + 5] == chiffre_hex(b as int));
            assert(16 * (c as u32 as int / 16) + c as u32 as int % 16 == c as u32 as int);
            assert(16 * valeur_hex(s[i + 4]) + valeur_hex(s[i + 5]) == c as u32 as int);
            lemme_car_de_u32(c);
            assert(lire_echappement(s, i) == Some((c, i + 6)));
        } else {
            assert(s[i] == c);
            assert(lire_chaine(s, i) == Some((t, i + echapper(t).len() + 1)));
        }
    }
}

/// Reading a written record yields the record back.
#[verifier::rlimit(100)]
proof fn lemme_lire_livre_enc(s: Seq<char>, i: int, l: LivreVue)
    requires
        correspond(s, i, encodage_livre(l)),
    ensures
        lire_livre(s, i) == Some((l, i + encodage_livre(l).len())),
{
    let morceau1 = gabarit_titre();
    let morceau2 = echapper(l.titre) + guillemet();
    let morceau3 = gabarit_auteur();
    let morceau4 = echapper(l.auteur) + guillemet();
    let morceau5 = gabarit_isbn();
    let morceau6 = echapper(l.isbn) + guillemet();
    let morceau7 = gabarit_annee();
    let morceau8 = decimal_de(l.annee_publication as nat);
    let morceau9 = gabarit_ferme();
    assert(encodage_livre(l) =~= morceau1 + (morceau2 + (morceau3 + (morceau4 + (morceau5 + (morceau6 + (morceau7 + (morceau8 + morceau9))))))));
    lemme_correspond_division(s, i, morceau1, morceau2 + (morceau3 + (morceau4 + (morceau5 + (morceau6 + (morceau7 + (morceau8 + morceau9)))))));
    let i1 = i + morceau1.len() as int;
    lemme_correspond_division(s, i1, morceau2, morceau3 + (morceau4 + (morceau5 + (morceau6 + (morceau7 + (morceau8 + morceau9))))));
    let i2 = i1 + morceau2.len() as int;
    lemme_correspond_division(s, i2, morceau3, morceau4 + (morceau5 + (morceau6 + (morceau7 + (morceau8 + morceau9)))));
    let i3 = i2 + morceau3.len() as int;
    lemme_correspond_division(s, i3, morceau4, morceau5 + (morceau6 + (morceau7 + (morceau8 + morceau9))));
    let i4 = i3 + morceau4.len() as int;
    lemme_correspond_division(s, i4, morceau5, morceau6 + (morceau7 + (morceau8 + morceau9)));
    let i5 = i4 + morceau5.len() as int;
    lemme_correspond_division(s, i5, morceau6, morceau7 + (morceau8 + morceau9));
    let i6 = i5 + morceau6.len() as int;
    lemme_correspond_division(s, i6, morceau7, morceau8 + morceau9);
    let i7 = i6 + morceau7.len() as int;
    lemme_correspond_division(s, i7, morceau8, morceau9);
    let i8 = i7 + morceau8.len() as int;
    lemme_lire_chaine_enc(s, i1, l.titre);
    lemme_lire_chaine_enc(s, i3, l.auteur);
    lemme_lire_chaine_enc(s, i5, l.isbn);
    assert(s[i8] == morceau9[0]);
    assert(!est_chiffre('\n'));
    lemme_lire_nombre_enc(s, i7, l.annee_publication);
    let i9 = i8 + morceau9.len() as int;
    assert(lire_livre(s, i) == Some((l, i9)));
}

/// Reading written records, followed by something that does not open a
/// separator, yields the records back.
#[verifier::rlimit(100)]
proof fn lemme_lire_livres_enc(s: Seq<char>, i: int, ls: Seq<LivreVue>)
    requires
        ls.len() >= 1,
        correspond(s, i, encodage_livres(ls)),
        i + encodage_livres(ls).len() == s.len() || s[i + encodage_livres(ls).len()] != ',',
    ensures
        lire_livres(s, i) == Some((ls, i + encodage_livres(ls).len())),
    decreases ls.len(),
{
    let j = i + encodage_livres(ls).len() as int;
    if ls.len() == 1 {
        assert(encodage_livres(ls) == encodage_livre(ls[0]));
        lemme_lire_livre_enc(s, i, ls[0]);
        if correspond(s, j, gabarit_virgule()) {
            assert(s.subrange(j, j + 2)[0] == s[j]);
            assert(false);
        }
        assert(seq![ls[0]] =~= ls);
    } else {
        let reste = encodage_livres(ls.skip(1));
        assert(encodage_livres(ls) == encodage_livre(ls[0]) + gabarit_virgule() + reste);
        assert(encodage_livres(ls) =~= encodage_livre(ls[0]) + (gabarit_virgule() + reste));
        lemme_correspond_division(s, i, encodage_livre(ls[0]), gabarit_virgule() + reste);
        let j1 = i + encodage_livre(ls[0]).len() as int;
        lemme_correspond_division(s, j1, gabarit_virgule(), reste);
        lemme_lire_livre_enc(s, i, ls[0]);
        assert(ls.skip(1).len() >= 1);
        lemme_lire_livres_enc(s, j1 + 2, ls.skip(1));
        assert(seq![ls[0]] + ls.skip(1) =~= ls);
        assert(j1 + 2 + reste.len() == j);
        assert(lire_livres(s, i) == Some((ls, j)));
    }
}

/// Reading back a written catalog yields the catalog: the round trip of
/// the persistence format.
#[verifier::rlimit(100)]
pub proof fn theoreme_catalogue_aller_retour(ls: Seq<LivreVue>)
    ensures
        lire_catalogue(encodage_catalogue(ls)) == Some(ls),
{
    let s = encodage_catalogue(ls);
    if ls.len() == 0 {
        assert(s == gabarit_vide());
        assert(ls =~= Seq::<LivreVue>::empty());
    } else {
        let milieu = encodage_livres(ls);
        assert(s =~= gabarit_ouvre() + (milieu + gabarit_fin()));
        assert(s.len() == 4 + milieu.len());
        assert(s != gabarit_vide());
        assert(correspond(s, 0, gabarit_ouvre() + (milieu + gabarit_fin()))) by {
            assert(s.subrange(0, s.len() as int) =~= s);
        }
        lemme_correspond_division(s, 0, gabarit_ouvre(), milieu + gabarit_fin());
        lemme_correspond_division(s, 2, milieu, gabarit_fin());
        let j = 2 + milieu.len() as int;
        assert(s[j] == gabarit_fin()[0]);
        lemme_lire_livres_enc(s, 2, ls);
        assert(lire_gabarit(s, 0, gabarit_ouvre()) == Some(2int));
        assert(correspond(s, j, gabarit_fin()));
        assert(j + 2 == s.len());
        assert(lire_catalogue(s) == Some(ls));
    }
}

// ---------------------------------------------------------------------
// The exec reader
// ---------------------------------------------------------------------
/// The closing of one record, as running characters.
fn gabarit_ferme_exec() -> (r: Vec<char>)
    ensures
        r@ == gabarit_ferme(),
{
    let r = vers_chars("\n  }");
    proof {
        reveal_strlit("\n  }");
        assert(r@ =~= gabarit_ferme());
    }
    r
}

/// Whether the fixed piece `gab` stands in `v` at `i`; the position
/// after it when it does.
fn attendre(v: &Vec<char>, i: usize, gab: &Vec<char>) -> (r: Option<usize>)
    ensures
        (match r {
            Some(j) => lire_gabarit(v@, i as int, gab@) == Some(j as int) && i <= j <= v.len(),
            None => lire_gabarit(v@, i as int, gab@) is None,
        }),
{
    if i > v.len() || gab.len() > v.len() - i {
        assert(!correspond(v@, i as int, gab@));
        return None;
    }
    let mut k: usize = 0;
    while k < gab.len()
        invariant
            i + gab.len() <= v.len(),
            k <= gab.len(),
            forall|m: int| 0 <= m < k ==> v@[i + m] == gab@[m],
        decreases gab.len() - k,
    {
        if v[i + k] != gab[k] {
            proof {
                assert(v@.subrange(i as int, i + gab@.len() as int)[k as int] != gab@[k as int]);
            }
            return None;
        }
        k += 1;
    }
    proof {
        assert(v@.subrange(i as int, i + gab@.len() as int) =~= gab@);
    }
    Some(i + gab.len())
}

/// The numeric value of a lowercase hexadecimal digit character.
fn valeur_hex_exec(c: char) -> (r: Option<u32>)
    ensures
        (match r {
            Some(n) => est_hex(c) && n == valeur_hex(c) && n < 16,
            None => !est_hex(c),
        }),
{
    let u = c as u32;
    if 48 <= u && u <= 57 {
        Some(u - 48)
    } else if 97 <= u && u <= 102 {
        Some(u - 87)
    } else {
        None
    }
}

/// Reads a quoted string's content from `i`, past its closing quote.
fn analyser_chaine(v: &Vec<char>, i: usize) -> (r: Option<(Vec<char>, usize)>)
    ensures
        (match r {
            Some(t_j) => lire_chaine(v@, i as int) == Some((t_j.0@, t_j.1 as int)) && i < t_j.1
                <= v.len(),
            None => lire_chaine(v@, i as int) is None,
        }),
{
    if i >= v.len() {
        return None;
    }
    let mut acc: Vec<char> = Vec::new();
    let mut j: usize = i;
    proof {
        if lire_chaine(v@, i as int) is Some {
            assert(Seq::<char>::empty() + lire_chaine(v@, i as int)->Some_0.0 =~= lire_chaine(
                v@,
                i as int,
            )->Some_0.0);
        }
    }
    loop
        invariant
            i <= j <= v.len(),
            (match lire_chaine(v@, j as int) {
                Some(tk) => lire_chaine(v@, i as int) == Some(((acc@ + tk.0), tk.1)),
                None => lire_chaine(v@, i as int) is None,
            }),
        decreases v.len() - j,
    {
        if j >= v.len() {
            return None;
        }
        let c = v[j];
        if c == '"' {
            proof {
                assert(acc@ + Seq::<char>::empty() =~= acc@);
            }
            return Some((acc, j + 1));
        } else if c == '\\' {
            if v.len() - j < 2 {
                return None;
            }
            let e = v[j + 1];
            let ghost j_avant = j as int;
            let ghost acc_avant = acc@;
            let c2: char;
            let j2: usize;
            if e == '"' {
                c2 = '"';
                j2 = j + 2;
            } else if e == '\\' {
                c2 = '\\';
                j2 = j + 2;
            } else if e == 'b' {
                c2 = '\u{8}';
                j2 = j + 2;
            } else if e == 't' {
                c2 = '\t';
                j2 = j + 2;
            } else if e == 'n' {
                c2 = '\n';
                j2 = j + 2;
            } else if e == 'f' {
                c2 = '\u{c}';
                j2 = j + 2;
            } else if e == 'r' {
                c2 = '\r';
                j2 = j + 2;
            } else if e == 'u' {
                if v.len() - j < 6 {
                    return None;
                }
                if v[j + 2] != '0' || v[j + 3] != '0' {
                    return None;
                }
                let h1 = match valeur_hex_exec(v[j + 4]) {
                    Some(x) => x,
                    None => { return None; },
                };
                let h2 = match valeur_hex_exec(v[j + 5]) {
                    Some(x) => x,
                    None => { return None; },
                };
                let val = 16 * h1 + h2;
                let cu = char_depuis(val);
                proof {
                    lemme_car_de_u32(cu);
                }
                c2 = cu;
                j2 = j + 6;
            } else {
                return None;
            }
            proof {
                assert(lire_echappement(v@, j_avant) == Some((c2, j2 as int)));
            }
            acc.push(c2);
            j = j2;
            proof {
                assert(acc@ =~= acc_avant + seq![c2]);
                if lire_chaine(v@, j as int) is Some {
                    assert((acc_avant + seq![c2]) + lire_chaine(v@, j as int)->Some_0.0 =~= acc_avant
                        + (seq![c2] + lire_chaine(v@, j as int)->Some_0.0));
                }
            }
        } else if (c as u32) < 32 {
            return None;
        } else {
            let ghost acc_avant = acc@;
            acc.push(c);
            j = j + 1;
            proof {
                assert(acc@ =~= acc_avant + seq![c]);
                if lire_chaine(v@, j as int) is Some {
                    assert((acc_avant + seq![c]) + lire_chaine(v@, j as int)->Some_0.0 =~= acc_avant
                        + (seq![c] + lire_chaine(v@, j as int)->Some_0.0));
                }
            }
        }
    }
}

/// Reads a number from `i`, greedily, into a `u32`.
fn analyser_nombre(v: &Vec<char>, i: usize) -> (r: Option<(u32, usize)>)
    ensures
        (match r {
            Some(n_j) => lire_nombre(v@, i as int) == Some((n_j.0, n_j.1 as int)) && i <= n_j.1
                <= v.len(),
            None => lire_nombre(v@, i as int) is None,
        }),
{
    if i >= v.len() {
        return None;
    }
    let c0 = v[i];
    if (c0 as u32) < 48 || (c0 as u32) > 57 {
        return None;
    }
    let mut acc: u32 = 0;
    let mut j: usize = i;
    loop
        invariant
            i <= j <= v.len(),
            i < v@.len() && est_chiffre(v@[i as int]),
            lire_nombre_acc(v@, i as int, 0) == lire_nombre_acc(v@, j as int, acc),
        decreases v.len() - j,
    {
        if j >= v.len() {
            return Some((acc, j));
        }
        let c = v[j];
        if (c as u32) < 48 || (c as u32) > 57 {
            return Some((acc, j));
        }
        let ghost j_avant = j as int;
        let ghost acc_avant = acc;
        let d = (c as u32) - 48;
        proof {
            assert(est_chiffre(v@[j_avant]));
            assert(d as int == valeur_chiffre(v@[j_avant]));
        }
        let large: u64 = acc as u64 * 10 + d as u64;
        proof {
            assert(large as int == acc_avant as int * 10 + valeur_chiffre(v@[j_avant]));
        }
        if large > u32::MAX as u64 {
            proof {
                assert(lire_nombre_acc(v@, j_avant, acc_avant) is None);
            }
            return None;
        }
        acc = large as u32;
        j += 1;
        proof {
            assert(lire_nombre_acc(v@, j_avant, acc_avant) == lire_nombre_acc(v@, j_avant + 1, acc));
        }
    }
}

/// Reads one record from `i`.
fn analyser_livre(v: &Vec<char>, i: usize) -> (r: Option<(Livre, usize)>)
    ensures
        (match r {
            Some(l_j) => lire_livre(v@, i as int) == Some((l_j.0@, l_j.1 as int)) && i < l_j.1
                <= v.len(),
            None => lire_livre(v@, i as int) is None,
        }),
{
    let g1 = gabarit_titre_exec();
    let i1 = match attendre(v, i, &g1) {
        Some(x) => x,
        None => { return None; },
    };
    let titre = match analyser_chaine(v, i1) {
        Some(x) => x,
        None => { return None; },
    };
    let g2 = gabarit_auteur_exec();
    let i3 = match attendre(v, titre.1, &g2) {
        Some(x) => x,
        None => { return None; },
    };
    let auteur = match analyser_chaine(v, i3) {
        Some(x) => x,
        None => { return None; },
    };
    let g3 = gabarit_isbn_exec();
    let i5 = match attendre(v, auteur.1, &g3) {
        Some(x) => x,
        None => { return None; },
    };
    let isbn = match analyser_chaine(v, i5) {
        Some(x) => x,
        None => { return None; },
    };
    let g4 = gabarit_annee_exec();
    let i7 = match attendre(v, isbn.1, &g4) {
        Some(x) => x,
        None => { return None; },
    };
    let annee = match analyser_nombre(v, i7) {
        Some(x) => x,
        None => { return None; },
    };
    let g5 = gabarit_ferme_exec();
    let i9 = match attendre(v, annee.1, &g5) {
        Some(x) => x,
        None => { return None; },
    };
    let livre = Livre {
        titre: chaine_depuis(&titre.0),
        auteur: chaine_depuis(&auteur.0),
        isbn: chaine_depuis(&isbn.0),
        annee_publication: annee.0,
    };
    Some((livre, i9))
}

/// Reads one or more records separated by `gabarit_virgule`.
fn analyser_livres(v: &Vec<char>, i: usize) -> (r: Option<(Vec<Livre>, usize)>)
    ensures
        (match r {
            Some(ls_j) => lire_livres(v@, i as int) == Some((ls_j.0.deep_view(), ls_j.1 as int))
                && i < ls_j.1 <= v.len(),
            None => lire_livres(v@, i as int) is None,
        }),
{
    if i > v.len() {
        proof {
            assert(!correspond(v@, i as int, gabarit_titre()));
        }
        return None;
    }
    let mut acc: Vec<Livre> = Vec::new();
    let mut j: usize = i;
    proof {
        assert(acc.deep_view() =~= Seq::<LivreVue>::empty());
        if lire_livres(v@, i as int) is Some {
            assert(Seq::<LivreVue>::empty() + lire_livres(v@, i as int)->Some_0.0 =~= lire_livres(
                v@,
                i as int,
            )->Some_0.0);
        }
    }
    loop
        invariant
            i <= j <= v.len(),
            (match lire_livres(v@, j as int) {
                Some(lk) => lire_livres(v@, i as int) == Some(((acc.deep_view() + lk.0), lk.1)),
                None => lire_livres(v@, i as int) is None,
            }),
        decreases v.len() - j,
    {
        let ghost j_avant = j as int;
        let ghost acc_avant = acc.deep_view();
        let livre_j = match analyser_livre(v, j) {
            Some(x) => x,
            None => { return None; },
        };
        let j1 = livre_j.1;
        acc.push(livre_j.0);
        proof {
            assert(acc.deep_view() =~= acc_avant.push(livre_j.0@));
        }
        if v.len() - j1 >= 2 && v[j1] == ',' && v[j1 + 1] == '\n' {
            proof {
                assert(v@.subrange(j1 as int, j1 + 2) =~= gabarit_virgule());
                assert(correspond(v@, j1 as int, gabarit_virgule()));
            }
            j = j1 + 2;
            proof {
                if lire_livres(v@, j as int) is Some {
                    assert((acc_avant.push(livre_j.0@)) + lire_livres(v@, j as int)->Some_0.0
                        =~= acc_avant + (seq![livre_j.0@] + lire_livres(
                        v@,
                        j as int,
                    )->Some_0.0));
                }
            }
        } else {
            proof {
                if correspond(v@, j1 as int, gabarit_virgule()) {
                    assert(v@.subrange(j1 as int, j1 + 2)[0] == v@[j1 as int]);
                    assert(v@.subrange(j1 as int, j1 + 2)[1] == v@[j1 + 1]);
                    assert(false);
                }
                assert(lire_livres(v@, j_avant) == Some((seq![livre_j.0@], j1 as int)));
                assert(acc_avant + seq![livre_j.0@] =~= acc_avant.push(livre_j.0@));
            }
            return Some((acc, j1));
        }
    }
}

/// Reads a whole catalog text, exactly as `lire_catalogue` states it.
pub fn analyser_catalogue(contenu: &str) -> (r: Option<Vec<Livre>>)
    ensures
        (match r {
            Some(ls) => lire_catalogue(contenu@) == Some(ls.deep_view()),
            None => lire_catalogue(contenu@) is None,
        }),
{
    let v = vers_chars(contenu);
    if v.len() == 2 && v[0] == '[' && v[1] == ']' {
        proof {
            assert(contenu@ =~= gabarit_vide());
        }
        let vide: Vec<Livre> = Vec::new();
        proof {
            assert(vide.deep_view() =~= Seq::<LivreVue>::empty());
        }
        return Some(vide);
    }
    proof {
        if contenu@ == gabarit_vide() {
            assert(v@[0] == '[' && v@[1] == ']');
            assert(false);
        }
    }
    let mut ouvre: Vec<char> = Vec::new();
    ouvre.push('[');
    ouvre.push('\n');
    proof {
        assert(ouvre@ =~= gabarit_ouvre());
    }
    let i = match attendre(&v, 0, &ouvre) {
        Some(x) => x,
        None => { return None; },
    };
    let ls_j = match analyser_livres(&v, i) {
        Some(x) => x,
        None => { return None; },
    };
    let j = ls_j.1;
    if v.len() - j == 2 && v[j] == '\n' && v[j + 1] == ']' {
        proof {
            assert(v@.subrange(j as int, j + 2) =~= gabarit_fin());
        }
        Some(ls_j.0)
    } else {
        proof {
            if correspond(v@, j as int, gabarit_fin()) {
                assert(v@.subrange(j as int, j + 2)[0] == v@[j as int]);
                assert(v@.subrange(j as int, j + 2)[1] == v@[j + 1]);
            }
        }
        None
    }
}

/// The full text of the catalog, exactly as `encodage_catalogue` states
/// it.
pub fn encoder_catalogue(livres: &Vec<Livre>) -> (r: String)
    ensures
        r@ == encodage_catalogue(livres.deep_view()),
{
    let ghost vue = livres.deep_view();
    let mut out: Vec<char> = Vec::new();
    if livres.len() == 0 {
        out.push('[');
        out.push(']');
        proof {
            assert(out@ =~= gabarit_vide());
        }
        return chaine_depuis(&out);
    }
    out.push('[');
    out.push('\n');
    proof {
        assert(out@ =~= gabarit_ouvre());
    }
    ecrire_livre(&mut out, &livres[0]);
    proof {
        assert(vue.take(1) =~= seq![vue[0]]);
        assert(encodage_livres(vue.take(1)) == encodage_livre(vue[0]));
    }
    let mut k: usize = 1;
    while k < livres.len()
        invariant
            1 <= k <= livres.len(),
            vue == livres.deep_view(),
            vue.len() == livres.len(),
            out@ == gabarit_ouvre() + encodage_livres(vue.take(k as int)),
        decreases livres.len() - k,
    {
        out.push(',');
        out.push('\n');
        ecrire_livre(&mut out, &livres[k]);
        proof {
            lemme_encodage_livres_push(vue.take(k as int), vue[k as int]);
            assert(vue.take(k + 1) =~= vue.take(k as int).push(vue[k as int]));
            assert(out@ =~= gabarit_ouvre() + encodage_livres(vue.take(k + 1)));
        }
        k += 1;
    }
    out.push('\n');
    out.push(']');
    proof {
        assert(vue.take(vue.len() as int) =~= vue);
        assert(out@ =~= encodage_catalogue(vue));
    }
    chaine_depuis(&out)
}

} // verus!
