use bibliotheque::bibliotheque::Bibliotheque;
use bibliotheque::codec::{analyser_catalogue, encoder_catalogue};
use bibliotheque::livre::Livre;

fn livre(titre: &str, auteur: &str, isbn: &str, annee: u32) -> Livre {
    Livre {
        titre: titre.to_string(),
        auteur: auteur.to_string(),
        isbn: isbn.to_string(),
        annee_publication: annee,
    }
}

fn objet_json(titre: &str, auteur: &str, isbn: &str, annee: u32) -> serde_json::Value {
    let mut m = serde_json::Map::new();
    m.insert("titre".to_string(), serde_json::Value::String(titre.to_string()));
    m.insert("auteur".to_string(), serde_json::Value::String(auteur.to_string()));
    m.insert("isbn".to_string(), serde_json::Value::String(isbn.to_string()));
    m.insert("annee_publication".to_string(), serde_json::Value::from(annee));
    serde_json::Value::Object(m)
}

#[test]
fn catalogue_vide_s_ecrit_crochets() {
    let vide: Vec<Livre> = Vec::new();
    assert_eq!(encoder_catalogue(&vide), "[]");
}

#[test]
fn ecriture_identique_au_json_indente_usuel() {
    let livres = vec![
        livre("Dune", "Frank Herbert", "0441013597", 1965),
        livre("1984", "George Orwell", "0451524935", 1949),
    ];
    let valeur = serde_json::Value::Array(vec![
        objet_json("Dune", "Frank Herbert", "0441013597", 1965),
        objet_json("1984", "George Orwell", "0451524935", 1949),
    ]);
    let attendu = serde_json::to_string_pretty(&valeur).unwrap();
    assert_eq!(encoder_catalogue(&livres), attendu);
}

#[test]
fn ecriture_identique_avec_echappements_et_accents() {
    let livres = vec![livre(
        "Guillemets \" et \\ barre",
        "Et\tdes\ncontr\u{1}les\u{1f}",
        "é-ü-ß-日本",
        0,
    )];
    let valeur = serde_json::Value::Array(vec![objet_json(
        "Guillemets \" et \\ barre",
        "Et\tdes\ncontr\u{1}les\u{1f}",
        "é-ü-ß-日本",
        0,
    )]);
    let attendu = serde_json::to_string_pretty(&valeur).unwrap();
    assert_eq!(encoder_catalogue(&livres), attendu);
}

#[test]
fn un_fichier_ecrit_par_le_json_usuel_se_charge() {
    let valeur = serde_json::Value::Array(vec![
        objet_json("Dune", "Frank Herbert", "0441013597", 1965),
        objet_json("L'Étranger", "Albert Camus", "2070360024", 1942),
    ]);
    let texte = serde_json::to_string_pretty(&valeur).unwrap();
    let b = Bibliotheque::new("bibliotheque.json", Some(&texte));
    assert_eq!(b.lister().len(), 2);
    assert_eq!(b.lister()[0], livre("Dune", "Frank Herbert", "0441013597", 1965));
    assert_eq!(b.lister()[1], livre("L'Étranger", "Albert Camus", "2070360024", 1942));
}

#[test]
fn ce_que_le_lecteur_accepte_est_du_json_valide() {
    let livres = vec![livre("Virgule, deux-points:", "{accolades}", "[crochets]", 4294967295)];
    let texte = encoder_catalogue(&livres);
    let valeur: serde_json::Value = serde_json::from_str(&texte).unwrap();
    let attendu = serde_json::Value::Array(vec![objet_json(
        "Virgule, deux-points:",
        "{accolades}",
        "[crochets]",
        4294967295,
    )]);
    assert_eq!(valeur, attendu);
}

#[test]
fn lecture_rend_exactement_ce_qui_fut_ecrit() {
    let livres = vec![
        livre("", "", "", 0),
        livre("a", "b", "c", 1),
        livre("\\\"\u{8}\u{c}\r", "fin", "isbn", 1999),
    ];
    let texte = encoder_catalogue(&livres);
    let relu = analyser_catalogue(&texte).unwrap();
    assert_eq!(relu, livres);
}

#[test]
fn textes_malformes_sont_refuses() {
    assert!(analyser_catalogue("").is_none());
    assert!(analyser_catalogue("[").is_none());
    assert!(analyser_catalogue("{}").is_none());
    assert!(analyser_catalogue("[]x").is_none());
    assert!(analyser_catalogue("[\n  {\n    \"titre\": \"a\"\n  }\n]").is_none());
    let annee_trop_grande = "[\n  {\n    \"titre\": \"a\",\n    \"auteur\": \"b\",\n    \"isbn\": \"c\",\n    \"annee_publication\": 4294967296\n  }\n]";
    assert!(analyser_catalogue(annee_trop_grande).is_none());
}
