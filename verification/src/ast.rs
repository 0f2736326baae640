//! Syntax trees: the persistent list and the atom node type that the
//! reader produces and the compiler consumes.

pub mod list;

use vstd::prelude::*;

pub use list::List;

verus! {

/// A parsed syntactic unit: an atomic literal or a nested form.
#[derive(Debug)]
pub enum Atom {
    AIdentifier(String),
    AString(String),
    AInteger(isize),
    ATrue,
    AFalse,
    AList(List<Atom>),
}

/// The mathematical model of a tree node.
pub ghost enum AtomV {
    Ident(Seq<char>),
    Text(Seq<char>),
    Num(int),
    Flag(bool),
    Forms(Seq<AtomV>),
}

spec fn alink_model(l: list::Link<Atom>) -> Seq<AtomV>
    decreases l,
{
    match l {
        None => Seq::empty(),
        Some(n) => seq![tree_model((*n).elm)] + alink_model((*n).next),
    }
}

spec fn tree_model(a: Atom) -> AtomV
    decreases a,
{
    match a {
        Atom::AIdentifier(s) => AtomV::Ident(s@),
        Atom::AString(s) => AtomV::Text(s@),
        Atom::AInteger(i) => AtomV::Num(i as int),
        Atom::ATrue => AtomV::Flag(true),
        Atom::AFalse => AtomV::Flag(false),
        Atom::AList(l) => AtomV::Forms(alink_model(l.head)),
    }
}

impl View for Atom {
    type V = AtomV;

    closed spec fn view(&self) -> AtomV {
        tree_model(*self)
    }
}

/// The models of a sequence of tree nodes, element by element.
pub open spec fn atoms_of(s: Seq<Atom>) -> Seq<AtomV> {
    s.map_values(|a: Atom| a@)
}

proof fn lemma_alink_model_view(l: &list::Link<Atom>)
    ensures
        alink_model(*l) == atoms_of(list::link_view(*l)),
    decreases *l,
{
    match l {
        None => {
            assert(alink_model(*l) =~= atoms_of(list::link_view(*l)));
        },
        Some(n) => {
            lemma_alink_model_view(&(*n).next);
            assert(alink_model(*l) =~= atoms_of(list::link_view(*l)));
        },
    }
}

/// What the model of each kind of tree node is.
pub proof fn lemma_tree_view_cases(a: &Atom)
    ensures
        match *a {
            Atom::AIdentifier(s) => a@ == AtomV::Ident(s@),
            Atom::AString(s) => a@ == AtomV::Text(s@),
            Atom::AInteger(i) => a@ == AtomV::Num(i as int),
            Atom::ATrue => a@ == AtomV::Flag(true),
            Atom::AFalse => a@ == AtomV::Flag(false),
            Atom::AList(l) => a@ == AtomV::Forms(atoms_of(l@)),
        },
{
    match a {
        Atom::AList(l) => {
            list::lemma_view_is_link_view(l);
            lemma_alink_model_view(&l.head);
        },
        _ => {},
    }
}

impl Clone for Atom {
    /// Cloning a nested form shares the underlying list cells.
    fn clone(&self) -> Self {
        match self {
            Atom::AIdentifier(s) => Atom::AIdentifier(s.clone()),
            Atom::AString(s) => Atom::AString(s.clone()),
            Atom::AInteger(i) => Atom::AInteger(*i),
            Atom::ATrue => Atom::ATrue,
            Atom::AFalse => Atom::AFalse,
            Atom::AList(l) => Atom::AList(l.copy()),
        }
    }
}

/// A top-level tree node: an atom together with its 1-based source line.
pub type ASTAtom = (Atom, usize);

/// The sequence of top-level forms handed to the compiler.
pub type ASTList = List<ASTAtom>;

} // verus!
