use bibliotheque::bibliotheque::{Bibliotheque, ErreurBibliotheque};
use bibliotheque::livre::Livre;

fn livre(titre: &str, auteur: &str, isbn: &str, annee: u32) -> Livre {
    Livre {
        titre: titre.to_string(),
        auteur: auteur.to_string(),
        isbn: isbn.to_string(),
        annee_publication: annee,
    }
}

fn dune() -> Livre {
    livre("Dune", "Frank Herbert", "0441013597", 1965)
}

fn mille_neuf_cent_quatre_vingt_quatre() -> Livre {
    livre("1984", "George Orwell", "0451524935", 1949)
}

#[test]
fn construction_sans_fichier_donne_catalogue_vide() {
    let b = Bibliotheque::new("bibliotheque.json", None);
    assert_eq!(b.lister().len(), 0);
    assert_eq!(b.fichier, "bibliotheque.json");
}

#[test]
fn construction_sur_fichier_vide_donne_catalogue_vide() {
    let b = Bibliotheque::new("bibliotheque.json", Some(""));
    assert_eq!(b.lister().len(), 0);
}

#[test]
fn construction_sur_contenu_corrompu_donne_catalogue_vide() {
    let b = Bibliotheque::new("bibliotheque.json", Some("{pas un catalogue"));
    assert_eq!(b.lister().len(), 0);
}

#[test]
fn chargement_de_contenu_corrompu_echoue_sans_rien_changer() {
    let mut b = Bibliotheque::new("bibliotheque.json", None);
    b.ajouter_livre(dune());
    let r = b.charger_donnees(Some("[pas du tout le format"));
    assert_eq!(r, Err(ErreurBibliotheque::ContenuInvalide));
    assert_eq!(b.lister().len(), 1);
    assert_eq!(b.lister()[0], dune());
}

#[test]
fn sauvegarde_puis_rechargement_redonne_le_catalogue() {
    let mut b = Bibliotheque::new("bibliotheque.json", None);
    b.ajouter_livre(dune());
    let texte = b.ajouter_livre(mille_neuf_cent_quatre_vingt_quatre());
    assert_eq!(texte, b.sauvegarder_donnees());
    let relu = Bibliotheque::new("bibliotheque.json", Some(&texte));
    assert_eq!(relu.lister(), b.lister());
}

#[test]
fn sauvegarde_vide_puis_rechargement_redonne_un_catalogue_vide() {
    let b = Bibliotheque::new("bibliotheque.json", None);
    let texte = b.sauvegarder_donnees();
    assert_eq!(texte, "[]");
    let relu = Bibliotheque::new("bibliotheque.json", Some(&texte));
    assert_eq!(relu.lister().len(), 0);
}

#[test]
fn rechargement_preserve_echappements_et_accents() {
    let mut b = Bibliotheque::new("bibliotheque.json", None);
    b.ajouter_livre(livre("Guillemets \" et \\ barre", "Et\tdes\ncontr\u{1}les", "é-ü-ß", 2000));
    let texte = b.sauvegarder_donnees();
    let relu = Bibliotheque::new("bibliotheque.json", Some(&texte));
    assert_eq!(relu.lister(), b.lister());
}

#[test]
fn recherche_titre_vide_rend_tout_dans_l_ordre() {
    let mut b = Bibliotheque::new("bibliotheque.json", None);
    b.ajouter_livre(dune());
    b.ajouter_livre(mille_neuf_cent_quatre_vingt_quatre());
    let r = b.rechercher_par_titre("");
    assert_eq!(r.len(), 2);
    assert_eq!(r[0], dune());
    assert_eq!(r[1], mille_neuf_cent_quatre_vingt_quatre());
}

#[test]
fn recherche_titre_sans_egard_a_la_casse() {
    let mut b = Bibliotheque::new("bibliotheque.json", None);
    b.ajouter_livre(dune());
    let minuscules = b.rechercher_par_titre("dune");
    assert_eq!(minuscules.len(), 1);
    assert_eq!(minuscules[0], dune());
    let majuscules = b.rechercher_par_titre("DUNE");
    assert_eq!(majuscules.len(), 1);
    assert_eq!(majuscules[0], dune());
}

#[test]
fn recherche_titre_par_sous_chaine() {
    let mut b = Bibliotheque::new("bibliotheque.json", None);
    b.ajouter_livre(dune());
    b.ajouter_livre(mille_neuf_cent_quatre_vingt_quatre());
    let r = b.rechercher_par_titre("19");
    assert_eq!(r.len(), 1);
    assert_eq!(r[0], mille_neuf_cent_quatre_vingt_quatre());
    assert_eq!(b.rechercher_par_titre("zzz").len(), 0);
}

#[test]
fn recherche_isbn_exacte_sans_egard_a_la_casse() {
    let mut b = Bibliotheque::new("bibliotheque.json", None);
    b.ajouter_livre(livre("Quelconque", "Quelqu'un", "ABC-123", 1990));
    let trouve = b.rechercher_par_isbn("abc-123");
    assert_eq!(trouve, Some(livre("Quelconque", "Quelqu'un", "ABC-123", 1990)));
    let prefixe = b.rechercher_par_isbn("ABC-12");
    assert_eq!(prefixe, None);
}

#[test]
fn recherche_isbn_rend_le_premier() {
    let mut b = Bibliotheque::new("bibliotheque.json", None);
    b.ajouter_livre(livre("Premier", "A", "X-1", 1950));
    b.ajouter_livre(livre("Second", "B", "x-1", 1960));
    let trouve = b.rechercher_par_isbn("X-1");
    assert_eq!(trouve, Some(livre("Premier", "A", "X-1", 1950)));
    assert_eq!(b.rechercher_par_isbn("0441013597"), None);
}

#[test]
fn retrait_valide_decale_les_suivants() {
    let mut b = Bibliotheque::new("bibliotheque.json", None);
    b.ajouter_livre(livre("A", "a", "1", 1901));
    b.ajouter_livre(livre("B", "b", "2", 1902));
    b.ajouter_livre(livre("C", "c", "3", 1903));
    let r = b.retirer_livre(1);
    assert!(r.is_ok());
    assert_eq!(b.lister().len(), 2);
    assert_eq!(b.lister()[0], livre("A", "a", "1", 1901));
    assert_eq!(b.lister()[1], livre("C", "c", "3", 1903));
}

#[test]
fn retrait_hors_bornes_echoue_sans_rien_changer() {
    let mut b = Bibliotheque::new("bibliotheque.json", None);
    assert_eq!(b.retirer_livre(0), Err(ErreurBibliotheque::IndexInvalide));
    b.ajouter_livre(dune());
    assert_eq!(b.retirer_livre(1), Err(ErreurBibliotheque::IndexInvalide));
    assert_eq!(b.retirer_livre(7), Err(ErreurBibliotheque::IndexInvalide));
    assert_eq!(b.lister().len(), 1);
    assert_eq!(b.lister()[0], dune());
}

#[test]
fn scenario_complet() {
    let mut b = Bibliotheque::new("bibliotheque.json", None);
    assert_eq!(b.lister().len(), 0);
    b.ajouter_livre(dune());
    b.ajouter_livre(mille_neuf_cent_quatre_vingt_quatre());
    let par_titre = b.rechercher_par_titre("19");
    assert_eq!(par_titre.len(), 1);
    assert_eq!(par_titre[0], mille_neuf_cent_quatre_vingt_quatre());
    let par_isbn = b.rechercher_par_isbn("0441013597");
    assert_eq!(par_isbn, Some(dune()));
    let r = b.retirer_livre(0);
    assert!(r.is_ok());
    assert_eq!(b.lister().len(), 1);
    assert_eq!(b.lister()[0], mille_neuf_cent_quatre_vingt_quatre());
}
