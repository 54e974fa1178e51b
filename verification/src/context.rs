//! What is kept while a document is built: where the builder stands, and the
//! placeholders it has met.

use vstd::prelude::*;
use crate::text::texts;
use crate::value::{Json, Value};

verus! {

/// A placeholder met in a string: the dotted path it names, the value found
/// there once it has been looked up, and the dotted path of the string that
/// holds the placeholder.
#[derive(Debug)]
pub struct Reference {
    pub target: String,
    pub value: Option<Value>,
    pub location: String,
}

/// The model of a [`Reference`].
pub struct Link {
    pub target: Seq<char>,
    pub value: Option<Json>,
    pub location: Seq<char>,
}

impl View for Reference {
    type V = Link;

    open spec fn view(&self) -> Link {
        Link {
            target: self.target@,
            value: match self.value {
                Some(v) => Some(v@),
                None => None,
            },
            location: self.location@,
        }
    }
}

/// The models of a sequence of references.
pub open spec fn links(references: Seq<Reference>) -> Seq<Link> {
    Seq::new(references.len(), |i: int| references[i]@)
}

/// The state of one run: the placeholders met so far, grouped by the path of
/// the string that holds them, in the order in which each path was first met;
/// and the keys of the objects that the builder is inside of.
#[derive(Debug)]
pub struct Context {
    pub references: Vec<(String, Vec<Reference>)>,
    pub location: Vec<String>,
}

/// The model of a [`Context`].
pub struct State {
    pub references: Seq<(Seq<char>, Seq<Link>)>,
    pub location: Seq<Seq<char>>,
}

/// The models of the groups of a registry.
pub open spec fn groups(references: Seq<(String, Vec<Reference>)>) -> Seq<(Seq<char>, Seq<Link>)> {
    Seq::new(references.len(), |i: int| (references[i].0@, links(references[i].1@)))
}

impl View for Context {
    type V = State;

    open spec fn view(&self) -> State {
        State { references: groups(self.references@), location: texts(self.location@) }
    }
}

/// The index of the group of `owner`, looked for from `from` on.
pub open spec fn find_owner(registry: Seq<(Seq<char>, Seq<Link>)>, owner: Seq<char>, from: int) -> Option<int>
    decreases registry.len() - from,
{
    if from < 0 || from >= registry.len() {
        None
    } else if registry[from].0 == owner {
        Some(from)
    } else {
        find_owner(registry, owner, from + 1)
    }
}

/// The registry after `link` has been recorded: at the end of the group of its
/// location, or in a new group at the end where the location is met first.
pub open spec fn record(registry: Seq<(Seq<char>, Seq<Link>)>, link: Link) -> Seq<(Seq<char>, Seq<Link>)> {
    match find_owner(registry, link.location, 0) {
        Some(i) => registry.update(i, (registry[i].0, registry[i].1.push(link))),
        None => registry.push((link.location, seq![link])),
    }
}

/// The registry after the links have been recorded one after the other.
pub open spec fn record_all(registry: Seq<(Seq<char>, Seq<Link>)>, found: Seq<Link>) -> Seq<(Seq<char>, Seq<Link>)>
    decreases found.len(),
{
    if found.len() == 0 {
        registry
    } else {
        record(record_all(registry, found.drop_last()), found.last())
    }
}

impl State {
    /// No two groups have the same owner, and each link stands in the group of
    /// its location.
    pub open spec fn wf(self) -> bool {
        &&& forall|i: int, j: int|
            0 <= i < j < self.references.len() ==> (#[trigger] self.references[i]).0
                != (#[trigger] self.references[j]).0
        &&& forall|i: int, k: int|
            0 <= i < self.references.len() && 0 <= k < self.references[i].1.len() ==> (
            #[trigger] self.references[i].1[k]).location == self.references[i].0
    }
}

/// What `find_owner` finds: the first group from `from` on that `owner` owns.
pub proof fn lemma_find_owner(registry: Seq<(Seq<char>, Seq<Link>)>, owner: Seq<char>, from: int)
    requires
        0 <= from,
    ensures
        match find_owner(registry, owner, from) {
            Some(i) => from <= i < registry.len() && registry[i].0 == owner,
            None => forall|j: int| from <= j < registry.len() ==> (#[trigger] registry[j]).0 != owner,
        },
    decreases registry.len() - from,
{
    if from < registry.len() && registry[from].0 != owner {
        lemma_find_owner(registry, owner, from + 1);
    }
}

/// Recording a link keeps the registry well formed.
pub proof fn lemma_record_wf(state: State, link: Link)
    requires
        state.wf(),
    ensures
        (State { references: record(state.references, link), ..state }).wf(),
{
    lemma_find_owner(state.references, link.location, 0);
}

/// Recording links keeps the registry well formed.
pub proof fn lemma_record_all_wf(state: State, found: Seq<Link>)
    requires
        state.wf(),
    ensures
        (State { references: record_all(state.references, found), ..state }).wf(),
    decreases found.len(),
{
    if found.len() > 0 {
        lemma_record_all_wf(state, found.drop_last());
        lemma_record_wf(
            State { references: record_all(state.references, found.drop_last()), ..state },
            found.last(),
        );
    }
}

/// Recording two runs of links one after the other is recording them all.
pub proof fn lemma_record_all_concat(
    registry: Seq<(Seq<char>, Seq<Link>)>,
    first: Seq<Link>,
    second: Seq<Link>,
)
    ensures
        record_all(registry, first + second) == record_all(record_all(registry, first), second),
    decreases second.len(),
{
    if second.len() == 0 {
        assert(first + second == first);
    } else {
        lemma_record_all_concat(registry, first, second.drop_last());
        assert((first + second).drop_last() == first + second.drop_last());
        assert((first + second).last() == second.last());
    }
}

impl Default for Context {
    fn default() -> (r: Context)
        ensures
            r@.references == Seq::<(Seq<char>, Seq<Link>)>::empty(),
            r@.location == Seq::<Seq<char>>::empty(),
            r@.wf(),
    {
        let ctx = Context { references: Vec::new(), location: Vec::new() };
        assert(ctx@.references =~= Seq::<(Seq<char>, Seq<Link>)>::empty());
        assert(ctx@.location =~= Seq::<Seq<char>>::empty());
        ctx
    }
}

} // verus!
