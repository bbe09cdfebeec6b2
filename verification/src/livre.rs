//! The book record and its mathematical view.

use vstd::prelude::*;

verus! {

/// One book record: title, author, isbn (an opaque identifier, not
/// validated) and publication year. Two records may be fully identical.
#[derive(Debug, PartialEq, Eq)]
pub struct Livre {
    pub titre: String,
    pub auteur: String,
    pub isbn: String,
    pub annee_publication: u32,
}

/// The mathematical value of a record: each text field as a character
/// sequence, and the year.
#[verifier::ext_equal]
pub struct LivreVue {
    pub titre: Seq<char>,
    pub auteur: Seq<char>,
    pub isbn: Seq<char>,
    pub annee_publication: u32,
}

impl View for Livre {
    type V = LivreVue;

    open spec fn view(&self) -> LivreVue {
        LivreVue {
            titre: self.titre@,
            auteur: self.auteur@,
            isbn: self.isbn@,
            annee_publication: self.annee_publication,
        }
    }
}

impl DeepView for Livre {
    type V = LivreVue;

    open spec fn deep_view(&self) -> LivreVue {
        self@
    }
}

impl Livre {
    /// An equal record, field for field.
    pub fn cloner(&self) -> (r: Livre)
        ensures
            r@ == self@,
    {
        Livre {
            titre: self.titre.clone(),
            auteur: self.auteur.clone(),
            isbn: self.isbn.clone(),
            annee_publication: self.annee_publication,
        }
    }
}

} // verus!
