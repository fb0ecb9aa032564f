//! Resolution: which names a program declares, and as what.

use vstd::prelude::*;

use crate::{views, Declaration, DeclarationView};

verus! {

/// What a declared name stands for.
#[derive(Debug, PartialEq, Eq, Clone, Copy, Structural)]
pub enum ValueType {
    UnsignedByte,
    Function,
}

/// The names that a program declares, each with its kind. Variables and
/// functions share one namespace, and a later declaration of a name replaces
/// an earlier one.
#[derive(Debug)]
pub struct Directory {
    entries: Vec<(String, ValueType)>,
}

/// The kind under which the entries hold `name`: that of the last entry with
/// this name.
spec fn last_kind(entries: Seq<(String, ValueType)>, name: Seq<char>) -> Option<
    ValueType,
>
    decreases entries.len(),
{
    if entries.len() == 0 {
        None
    } else if entries.last().0@ == name {
        Some(entries.last().1)
    } else {
        last_kind(entries.drop_last(), name)
    }
}

/// The map that a sequence of entries makes, each entry replacing what an
/// earlier one said of its name.
spec fn entries_map(entries: Seq<(String, ValueType)>) -> Map<Seq<char>, ValueType>
    decreases entries.len(),
{
    if entries.len() == 0 {
        Map::empty()
    } else {
        entries_map(entries.drop_last()).insert(entries.last().0@, entries.last().1)
    }
}

/// A name is in the map of the entries exactly if an entry has it, and then
/// with the kind of the last such entry.
proof fn lemma_entries_map(entries: Seq<(String, ValueType)>, name: Seq<char>)
    ensures
        entries_map(entries).contains_key(name) <==> last_kind(entries, name) is Some,
        entries_map(entries).contains_key(name) ==> entries_map(entries)[name] == last_kind(
            entries,
            name,
        )->0,
    decreases entries.len(),
{
    if entries.len() > 0 {
        lemma_entries_map(entries.drop_last(), name);
    }
}

impl View for Directory {
    type V = Map<Seq<char>, ValueType>;

    closed spec fn view(&self) -> Map<Seq<char>, ValueType> {
        entries_map(self.entries@)
    }
}

impl Directory {
    /// A directory without names.
    pub fn new() -> (directory: Directory)
        ensures
            directory@ == Map::<Seq<char>, ValueType>::empty(),
    {
        Directory { entries: Vec::new() }
    }

    /// Records `name` as a `kind`, in place of what was recorded of it.
    pub fn insert(&mut self, name: String, kind: ValueType)
        ensures
            final(self)@ == old(self)@.insert(name@, kind),
    {
        self.entries.push((name, kind));
        assert(self.entries@.drop_last() =~= old(self).entries@);
    }

    /// The kind recorded of `name`, if any.
    pub fn get(&self, name: &String) -> (kind: Option<ValueType>)
        ensures
            kind == if self@.contains_key(name@) {
                Some(self@[name@])
            } else {
                None
            },
    {
        let mut i: usize = self.entries.len();
        proof {
            assert(self.entries@.take(i as int) =~= self.entries@);
            lemma_entries_map(self.entries@, name@);
        }
        while i > 0
            invariant
                i <= self.entries.len(),
                last_kind(self.entries@.take(i as int), name@) == last_kind(self.entries@, name@),
            decreases i,
        {
            i -= 1;
            proof {
                assert(self.entries@.take(i + 1).drop_last() =~= self.entries@.take(i as int));
                lemma_entries_map(self.entries@, name@);
            }
            if self.entries[i].0 == *name {
                return Some(self.entries[i].1);
            }
        }
        None
    }
}

/// The kind that a declaration gives its name.
pub open spec fn declared_kind(declaration: DeclarationView) -> ValueType {
    match declaration {
        DeclarationView::Variable { .. } => ValueType::UnsignedByte,
        DeclarationView::Function { .. } => ValueType::Function,
    }
}

/// The name that a declaration declares.
pub open spec fn declared_name(declaration: DeclarationView) -> Seq<char> {
    match declaration {
        DeclarationView::Variable { name, .. } => name.lexeme,
        DeclarationView::Function { name, .. } => name.lexeme,
    }
}

/// The directory of a program: each declared name with the kind of its last
/// declaration.
pub open spec fn directory_of(declarations: Seq<DeclarationView>) -> Map<Seq<char>, ValueType>
    decreases declarations.len(),
{
    if declarations.len() == 0 {
        Map::empty()
    } else {
        directory_of(declarations.drop_last()).insert(
            declared_name(declarations.last()),
            declared_kind(declarations.last()),
        )
    }
}

/// The last declaration of a name decides its kind in the directory.
pub proof fn lemma_last_declaration_wins(declarations: Seq<DeclarationView>, i: int)
    requires
        0 <= i < declarations.len(),
        forall|j: int|
            i < j < declarations.len() ==> declared_name(#[trigger] declarations[j])
                != declared_name(declarations[i]),
    ensures
        directory_of(declarations).contains_key(declared_name(declarations[i])),
        directory_of(declarations)[declared_name(declarations[i])] == declared_kind(
            declarations[i],
        ),
    decreases declarations.len(),
{
    if i < declarations.len() - 1 {
        let before = declarations.drop_last();
        assert(declared_name(declarations[declarations.len() - 1]) != declared_name(
            declarations[i],
        ));
        assert forall|j: int| i < j < before.len() implies declared_name(#[trigger] before[j])
            != declared_name(before[i]) by {
            assert(before[j] == declarations[j]);
        }
        lemma_last_declaration_wins(before, i);
    }
}

/// The directory holds no name that no declaration declares.
pub proof fn lemma_undeclared_name(declarations: Seq<DeclarationView>, name: Seq<char>)
    requires
        forall|j: int|
            0 <= j < declarations.len() ==> declared_name(#[trigger] declarations[j]) != name,
    ensures
        !directory_of(declarations).contains_key(name),
    decreases declarations.len(),
{
    if declarations.len() > 0 {
        let before = declarations.drop_last();
        assert(declared_name(declarations[declarations.len() - 1]) != name);
        assert forall|j: int| 0 <= j < before.len() implies declared_name(#[trigger] before[j])
            != name by {
            assert(before[j] == declarations[j]);
        }
        lemma_undeclared_name(before, name);
    }
}

/// Builds the directory of a program in one pass over its declarations.
pub fn generate_directory(ast: &Vec<Declaration>) -> (directory: Directory)
    ensures
        directory@ == directory_of(views(ast@)),
{
    let mut directory = Directory::new();
    let mut i: usize = 0;
    proof {
        assert(views(ast@).take(0) =~= Seq::<DeclarationView>::empty());
    }
    while i < ast.len()
        invariant
            i <= ast.len(),
            directory@ == directory_of(views(ast@).take(i as int)),
        decreases ast.len() - i,
    {
        proof {
            assert(views(ast@).take(i + 1).drop_last() =~= views(ast@).take(i as int));
        }
        match &ast[i] {
            Declaration::Function { name, .. } => {
                directory.insert(name.lexeme.clone(), ValueType::Function);
            },
            Declaration::Variable { name, .. } => {
                directory.insert(name.lexeme.clone(), ValueType::UnsignedByte);
            },
        }
        i += 1;
    }
    proof {
        assert(views(ast@).take(ast.len() as int) =~= views(ast@));
    }
    directory
}

} // verus!
