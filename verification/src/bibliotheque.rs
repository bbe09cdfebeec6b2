//! The catalog store: the records in memory, the search and removal
//! operations, and the load/save contract against the persistence format.

use vstd::prelude::*;

use crate::codec::{
    analyser_catalogue, encodage_catalogue, encoder_catalogue, lire_catalogue,
    theoreme_catalogue_aller_retour,
};
use crate::livre::{Livre, LivreVue};
use crate::texte::{contient, en_minuscules, est_sous_chaine, lemme_sous_chaine_vide, minuscule_de};

verus! {

/// Why a store operation failed.
#[derive(Debug, PartialEq, Eq)]
pub enum ErreurBibliotheque {
    /// The saved text does not have the catalog's format.
    ContenuInvalide,
    /// The index does not name a record of the catalog.
    IndexInvalide,
}

/// A record matches a title query when the lowered query occurs inside
/// the lowered title.
pub open spec fn titre_correspond(l: LivreVue, requete_min: Seq<char>) -> bool {
    est_sous_chaine(requete_min, minuscule_de(l.titre))
}

/// A record matches an isbn query when the lowered forms are equal.
pub open spec fn isbn_correspond(l: LivreVue, requete_min: Seq<char>) -> bool {
    minuscule_de(l.isbn) == requete_min
}

/// The records matching a title query, in their original order.
pub open spec fn filtre_titre(ls: Seq<LivreVue>, requete_min: Seq<char>) -> Seq<LivreVue>
    decreases ls.len(),
{
    if ls.len() == 0 {
        Seq::empty()
    } else {
        let reste = filtre_titre(ls.drop_last(), requete_min);
        if titre_correspond(ls.last(), requete_min) {
            reste.push(ls.last())
        } else {
            reste
        }
    }
}

/// The first record matching an isbn query, if any.
pub open spec fn premier_isbn(ls: Seq<LivreVue>, requete_min: Seq<char>) -> Option<LivreVue>
    decreases ls.len(),
{
    if ls.len() == 0 {
        None
    } else if isbn_correspond(ls[0], requete_min) {
        Some(ls[0])
    } else {
        premier_isbn(ls.skip(1), requete_min)
    }
}

/// The isbn search fails exactly when no record matches, and what it
/// yields is a matching record.
pub proof fn lemme_isbn_absent(ls: Seq<LivreVue>, requete_min: Seq<char>)
    ensures
        premier_isbn(ls, requete_min) is None <==> (forall|k: int|
            0 <= k < ls.len() ==> !isbn_correspond(#[trigger] ls[k], requete_min)),
        (premier_isbn(ls, requete_min) matches Some(l) ==> isbn_correspond(l, requete_min)),
    decreases ls.len(),
{
    if ls.len() == 0 {
    } else {
        lemme_isbn_absent(ls.skip(1), requete_min);
        assert(forall|k: int| 0 <= k < ls.skip(1).len() ==> ls.skip(1)[k] == ls[k + 1]);
        if premier_isbn(ls, requete_min) is None {
            assert forall|k: int|
                0 <= k < ls.len() implies !isbn_correspond(#[trigger] ls[k], requete_min) by {
                if k > 0 {
                    assert(ls.skip(1)[k - 1] == ls[k]);
                }
            }
        }
    }
}

/// An empty query matches every record: filtering by it keeps the whole
/// catalog, in order.
pub proof fn lemme_filtre_requete_vide(ls: Seq<LivreVue>, requete_min: Seq<char>)
    requires
        requete_min.len() == 0,
    ensures
        filtre_titre(ls, requete_min) == ls,
    decreases ls.len(),
{
    if ls.len() == 0 {
        assert(filtre_titre(ls, requete_min) =~= ls);
    } else {
        lemme_filtre_requete_vide(ls.drop_last(), requete_min);
        lemme_sous_chaine_vide(requete_min, minuscule_de(ls.last().titre));
        assert(filtre_titre(ls, requete_min) =~= ls);
    }
}

/// Every record the title search yields matches the query.
pub proof fn lemme_filtre_correspond(ls: Seq<LivreVue>, requete_min: Seq<char>)
    ensures
        forall|k: int|
            0 <= k < filtre_titre(ls, requete_min).len() ==> titre_correspond(
                #[trigger] filtre_titre(ls, requete_min)[k],
                requete_min,
            ),
    decreases ls.len(),
{
    if ls.len() == 0 {
    } else {
        lemme_filtre_correspond(ls.drop_last(), requete_min);
        let devant = filtre_titre(ls.drop_last(), requete_min);
        assert forall|k: int|
            0 <= k < filtre_titre(ls, requete_min).len() implies titre_correspond(
            #[trigger] filtre_titre(ls, requete_min)[k],
            requete_min,
        ) by {
            if titre_correspond(ls.last(), requete_min) {
                if k < devant.len() {
                    assert(filtre_titre(ls, requete_min)[k] == devant[k]);
                } else {
                    assert(filtre_titre(ls, requete_min)[k] == ls.last());
                }
            } else {
                assert(filtre_titre(ls, requete_min)[k] == devant[k]);
            }
        }
    }
}

/// Removing the record at `i` shortens the catalog by one, keeps the
/// records before `i`, and shifts the ones after it down by one.
pub proof fn lemme_retrait_decale(ls: Seq<LivreVue>, i: int)
    requires
        0 <= i < ls.len(),
    ensures
        ls.remove(i).len() == ls.len() - 1,
        forall|k: int| 0 <= k < i ==> ls.remove(i)[k] == ls[k],
        forall|k: int| i <= k < ls.len() - 1 ==> ls.remove(i)[k] == ls[k + 1],
{
}

/// Saving a catalog and reading the saved text back yields that catalog,
/// and the saved text is never empty.
pub proof fn theoreme_sauvegarde_rechargement(ls: Seq<LivreVue>)
    ensures
        lire_catalogue(encodage_catalogue(ls)) == Some(ls),
        encodage_catalogue(ls).len() >= 2,
{
    theoreme_catalogue_aller_retour(ls);
}

/// The catalog store: the records in memory and the path of the file
/// that persists them. The caller reads and writes that file; the store
/// computes every text that goes into it and interprets every text that
/// comes out of it.
pub struct Bibliotheque {
    pub livres: Vec<Livre>,
    pub fichier: String,
}

/// The mathematical value of a store.
#[verifier::ext_equal]
pub struct BibliothequeVue {
    pub livres: Seq<LivreVue>,
    pub fichier: Seq<char>,
}

impl View for Bibliotheque {
    type V = BibliothequeVue;

    open spec fn view(&self) -> BibliothequeVue {
        BibliothequeVue { livres: self.livres.deep_view(), fichier: self.fichier@ }
    }
}

impl Bibliotheque {
    /// A store bound to `fichier`, loaded from `contenu`, the current
    /// text of that file (`None` when the file does not exist). A
    /// missing or empty file gives an empty catalog; so does malformed
    /// text: a load failure never blocks construction.
    pub fn new(fichier: &str, contenu: Option<&str>) -> (r: Bibliotheque)
        ensures
            r@.fichier == fichier@,
            (match contenu {
                None => r@.livres == Seq::<LivreVue>::empty(),
                Some(c) => (if c@.len() == 0 {
                    r@.livres == Seq::<LivreVue>::empty()
                } else {
                    match lire_catalogue(c@) {
                        Some(ls) => r@.livres == ls,
                        None => r@.livres == Seq::<LivreVue>::empty(),
                    }
                }),
            }),
    {
        let livres_init: Vec<Livre> = Vec::new();
        proof {
            assert(livres_init.deep_view() =~= Seq::<LivreVue>::empty());
        }
        let mut bibliotheque = Bibliotheque { livres: livres_init, fichier: fichier.to_owned() };
        let _ = bibliotheque.charger_donnees(contenu);
        bibliotheque
    }

    /// Replaces the records with what `contenu`, the file's current
    /// text, holds. A missing or empty file changes nothing and
    /// succeeds; well-formed text installs its records; malformed text
    /// changes nothing and fails.
    pub fn charger_donnees(&mut self, contenu: Option<&str>) -> (r: Result<
        (),
        ErreurBibliotheque,
    >)
        ensures
            final(self)@.fichier == old(self)@.fichier,
            (match contenu {
                None => r is Ok && final(self)@.livres == old(self)@.livres,
                Some(c) => (if c@.len() == 0 {
                    r is Ok && final(self)@.livres == old(self)@.livres
                } else {
                    match lire_catalogue(c@) {
                        Some(ls) => r is Ok && final(self)@.livres == ls,
                        None => r == Err::<(), ErreurBibliotheque>(
                            ErreurBibliotheque::ContenuInvalide,
                        ) && final(self)@.livres == old(self)@.livres,
                    }
                }),
            }),
    {
        match contenu {
            None => Ok(()),
            Some(c) => {
                if c.is_empty() {
                    Ok(())
                } else {
                    match analyser_catalogue(c) {
                        Some(ls) => {
                            self.livres = ls;
                            Ok(())
                        },
                        None => Err(ErreurBibliotheque::ContenuInvalide),
                    }
                }
            },
        }
    }

    /// The text to write to the backing file: the whole catalog,
    /// serialized.
    pub fn sauvegarder_donnees(&self) -> (r: String)
        ensures
            r@ == encodage_catalogue(self@.livres),
    {
        encoder_catalogue(&self.livres)
    }

    /// Appends `livre` to the catalog and yields the text to flush to
    /// the backing file.
    pub fn ajouter_livre(&mut self, livre: Livre) -> (r: String)
        ensures
            final(self)@.livres == old(self)@.livres.push(livre@),
            final(self)@.fichier == old(self)@.fichier,
            r@ == encodage_catalogue(final(self)@.livres),
    {
        let ghost avant = self@.livres;
        let ghost vue = livre@;
        self.livres.push(livre);
        proof {
            assert(self@.livres =~= avant.push(vue));
        }
        encoder_catalogue(&self.livres)
    }

    /// The records whose title contains the query, without regard to
    /// case, in their original order. An empty query returns every
    /// record.
    pub fn rechercher_par_titre(&self, titre: &str) -> (r: Vec<Livre>)
        ensures
            r.deep_view() == filtre_titre(self@.livres, minuscule_de(titre@)),
            titre@.len() == 0 ==> r.deep_view() == self@.livres,
    {
        let requete_min = en_minuscules(titre);
        let mut r: Vec<Livre> = Vec::new();
        proof {
            assert(r.deep_view() =~= Seq::<LivreVue>::empty());
            assert(self@.livres.take(0) =~= Seq::<LivreVue>::empty());
            assert(filtre_titre(Seq::<LivreVue>::empty(), minuscule_de(titre@))
                == Seq::<LivreVue>::empty());
        }
        let mut i: usize = 0;
        while i < self.livres.len()
            invariant
                i <= self.livres.len(),
                self@.livres.len() == self.livres.len(),
                requete_min@ == minuscule_de(titre@),
                r.deep_view() == filtre_titre(self@.livres.take(i as int), minuscule_de(titre@)),
            decreases self.livres.len() - i,
        {
            let t_min = en_minuscules(self.livres[i].titre.as_str());
            let ghost avant = r.deep_view();
            if contient(t_min.as_str(), requete_min.as_str()) {
                r.push(self.livres[i].cloner());
                proof {
                    assert(r.deep_view() =~= avant.push(self@.livres[i as int]));
                }
            }
            i += 1;
            proof {
                assert(self@.livres.take(i as int).drop_last() =~= self@.livres.take(i - 1));
                assert(self@.livres.take(i as int).last() == self@.livres[i - 1]);
            }
        }
        proof {
            assert(self@.livres.take(self.livres.len() as int) =~= self@.livres);
            if titre@.len() == 0 {
                lemme_filtre_requete_vide(self@.livres, minuscule_de(titre@));
            }
        }
        r
    }

    /// The first record whose isbn equals the query, without regard to
    /// case; absence is not a failure.
    pub fn rechercher_par_isbn(&self, isbn: &str) -> (r: Option<Livre>)
        ensures
            (match r {
                Some(l) => premier_isbn(self@.livres, minuscule_de(isbn@)) == Some(l@),
                None => premier_isbn(self@.livres, minuscule_de(isbn@)) is None,
            }),
    {
        let requete_min = en_minuscules(isbn);
        proof {
            assert(self@.livres.skip(0) =~= self@.livres);
        }
        let mut i: usize = 0;
        while i < self.livres.len()
            invariant
                i <= self.livres.len(),
                self@.livres.len() == self.livres.len(),
                requete_min@ == minuscule_de(isbn@),
                premier_isbn(self@.livres, minuscule_de(isbn@)) == premier_isbn(
                    self@.livres.skip(i as int),
                    minuscule_de(isbn@),
                ),
            decreases self.livres.len() - i,
        {
            let i_min = en_minuscules(self.livres[i].isbn.as_str());
            proof {
                assert(self@.livres.skip(i as int)[0] == self@.livres[i as int]);
            }
            if i_min == requete_min {
                return Some(self.livres[i].cloner());
            }
            i += 1;
            proof {
                assert(self@.livres.skip(i - 1).skip(1) =~= self@.livres.skip(i as int));
            }
        }
        proof {
            assert(self@.livres.skip(self.livres.len() as int) =~= Seq::<LivreVue>::empty());
        }
        None
    }

    /// Removes the record at `index` and yields the text to flush; an
    /// index at or past the catalog's length fails and changes nothing.
    pub fn retirer_livre(&mut self, index: usize) -> (r: Result<String, ErreurBibliotheque>)
        ensures
            final(self)@.fichier == old(self)@.fichier,
            (match r {
                Ok(texte) => index < old(self)@.livres.len() && final(self)@.livres == old(
                    self,
                )@.livres.remove(index as int) && texte@ == encodage_catalogue(
                    final(self)@.livres,
                ),
                Err(e) => index >= old(self)@.livres.len() && e
                    == ErreurBibliotheque::IndexInvalide && final(self)@ == old(self)@,
            }),
    {
        if index >= self.livres.len() {
            return Err(ErreurBibliotheque::IndexInvalide);
        }
        let ghost avant = self@.livres;
        self.livres.remove(index);
        proof {
            assert(self@.livres =~= avant.remove(index as int));
        }
        Ok(encoder_catalogue(&self.livres))
    }

    /// The whole catalog, in order, for display; nothing can fail.
    pub fn lister(&self) -> (r: &Vec<Livre>)
        ensures
            r.deep_view() == self@.livres,
    {
        &self.livres
    }
}

} // verus!
