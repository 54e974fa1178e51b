//! The two passes that follow the build: looking each placeholder's target up,
//! and writing the values found into the strings that hold the placeholders.

use vstd::prelude::*;
use vstd::string::*;
use crate::context::{links, Context, Link, Reference, State};
use crate::error::{Error, Fault};
use crate::text::{lemma_split_len, replace, replace_all, split, split_path, texts};
use crate::value::{
    find_key, items_model, lemma_find_key, lemma_json_of, members_model, Json, Value,
};

verus! {

/// The value that the segments of a target from `from` on lead to, starting at
/// `tree`: each segment is the key of a member of the object reached so far.
/// The walk ends at the first value that is no object, and where the segments
/// end. A key that is not there is a fault, and so is an array.
pub open spec fn resolve(tree: Json, segments: Seq<Seq<char>>, from: int, target: Seq<char>) -> Result<
    Json,
    Fault,
>
    decreases segments.len() - from,
{
    if from < 0 || from >= segments.len() {
        Ok(tree)
    } else {
        match tree.get(segments[from]) {
            None => Err(Fault::NotFound { target, missing_segment: segments[from] }),
            Some(Json::Object(members)) => resolve(
                Json::Object(members),
                segments,
                from + 1,
                target,
            ),
            Some(Json::Array(_)) => Err(Fault::ArrayReference { target, segment: segments[from] }),
            Some(value) => Ok(value),
        }
    }
}

/// The value that the dotted path `path` leads to in `tree`, for a
/// placeholder whose target is `target`.
pub open spec fn lookup(tree: Json, path: Seq<char>, target: Seq<char>) -> Result<Json, Fault> {
    resolve(tree, split(path, '.'), 0, target)
}

/// The value that stands at the end of the path made of the segments from
/// `from` on, each the key of a member of the object before it.
pub open spec fn value_at(tree: Json, segments: Seq<Seq<char>>, from: int) -> Option<Json>
    decreases segments.len() - from,
{
    if from < 0 || from >= segments.len() {
        Some(tree)
    } else {
        match tree.get(segments[from]) {
            Some(value) => value_at(value, segments, from + 1),
            None => None,
        }
    }
}

/// The tree holds no array.
pub open spec fn object_only(tree: Json) -> bool
    decreases tree,
{
    match tree {
        Json::Array(_) => false,
        Json::Object(members) => forall|i: int|
            0 <= i < members.len() ==> object_only((#[trigger] members[i]).1),
        _ => true,
    }
}

/// In a tree without arrays, a path that leads to a value resolves to that
/// value.
pub proof fn lemma_resolve_finds_value(
    tree: Json,
    segments: Seq<Seq<char>>,
    from: int,
    target: Seq<char>,
    value: Json,
)
    requires
        object_only(tree),
        0 <= from < segments.len(),
        value_at(tree, segments, from) == Some(value),
    ensures
        resolve(tree, segments, from, target) == Ok::<Json, Fault>(value),
    decreases segments.len() - from,
{
    let members = tree->Object_0;
    lemma_find_key(members, segments[from], 0);
    let child = tree.get(segments[from])->Some_0;
    assert(object_only(child));
    if child is Object && from + 1 < segments.len() {
        lemma_resolve_finds_value(child, segments, from + 1, target, value);
    }
}

/// A path that leads into an array, at its end or on its way, does not
/// resolve: the fault names the target and the segment that is the array's
/// key.
pub proof fn lemma_resolve_rejects_array(
    tree: Json,
    segments: Seq<Seq<char>>,
    from: int,
    upto: int,
    target: Seq<char>,
)
    requires
        0 <= from < upto <= segments.len(),
        value_at(tree, segments.take(upto), from) matches Some(Json::Array(_)),
    ensures
        resolve(tree, segments, from, target) == Err::<Json, Fault>(
            Fault::ArrayReference { target, segment: segments[upto - 1] },
        ),
    decreases upto - from,
{
    assert(segments.take(upto)[from] == segments[from]);
    if from + 1 < upto {
        let child = tree.get(segments[from])->Some_0;
        lemma_resolve_rejects_array(child, segments, from + 1, upto, target);
    }
}

/// What a target resolves to is never an array.
pub proof fn lemma_lookup_yields_no_array(tree: Json, path: Seq<char>, target: Seq<char>)
    ensures
        lookup(tree, path, target) matches Ok(value) ==> !(value is Array),
{
    lemma_split_len(path, '.');
    lemma_resolve_yields_no_array(tree, split(path, '.'), 0, target);
}

/// What the segments from `from` on resolve to, where there is one at least,
/// is never an array.
pub proof fn lemma_resolve_yields_no_array(
    tree: Json,
    segments: Seq<Seq<char>>,
    from: int,
    target: Seq<char>,
)
    requires
        0 <= from < segments.len(),
    ensures
        resolve(tree, segments, from, target) matches Ok(value) ==> !(value is Array),
    decreases segments.len() - from,
{
    match tree.get(segments[from]) {
        Some(Json::Object(members)) => {
            if from + 1 < segments.len() {
                lemma_resolve_yields_no_array(Json::Object(members), segments, from + 1, target);
            }
        },
        _ => {},
    }
}

/// Looking the targets up adds no link and takes none away: each link keeps
/// its target and its location, and only its value is filled in.
pub proof fn lemma_resolve_links_keeps(found: Seq<Link>, tree: Json, from: int)
    requires
        0 <= from <= found.len(),
    ensures
        resolve_links(found, tree, from).0.len() == found.len() - from,
        forall|k: int|
            0 <= k < found.len() - from ==> {
                &&& (#[trigger] resolve_links(found, tree, from).0[k]).target == found[from
                    + k].target
                &&& resolve_links(found, tree, from).0[k].location == found[from + k].location
            },
    decreases found.len() - from,
{
    if from < found.len() {
        lemma_resolve_links_keeps(found, tree, from + 1);
    }
}

/// Looking the targets up keeps the groups of the registry, their owners and
/// their links' targets.
pub proof fn lemma_resolve_groups_keeps(registry: Seq<(Seq<char>, Seq<Link>)>, tree: Json, from: int)
    requires
        0 <= from <= registry.len(),
    ensures
        resolve_groups(registry, tree, from).0.len() == registry.len() - from,
        forall|g: int|
            0 <= g < registry.len() - from ==> {
                let after = #[trigger] resolve_groups(registry, tree, from).0[g];
                let before = registry[from + g];
                &&& after.0 == before.0
                &&& after.1.len() == before.1.len()
                &&& forall|k: int|
                    0 <= k < before.1.len() ==> (#[trigger] after.1[k]).target == before.1[k].target
                        && after.1[k].location == before.1[k].location
            },
    decreases registry.len() - from,
{
    if from < registry.len() {
        lemma_resolve_links_keeps(registry[from].1, tree, 0);
        lemma_resolve_groups_keeps(registry, tree, from + 1);
    }
}

/// Looking the targets up keeps a registry well formed.
pub proof fn lemma_resolve_groups_wf(state: State, tree: Json)
    requires
        state.wf(),
    ensures
        (State { references: resolve_groups(state.references, tree, 0).0, ..state }).wf(),
{
    let after = resolve_groups(state.references, tree, 0).0;
    lemma_resolve_groups_keeps(state.references, tree, 0);
    assert forall|i: int, j: int| 0 <= i < j < after.len() implies (#[trigger] after[i]).0 != (
    #[trigger] after[j]).0 by {
        assert(after[i].0 == state.references[i].0);
        assert(after[j].0 == state.references[j].0);
    }
    assert forall|i: int, k: int| 0 <= i < after.len() && 0 <= k < after[i].1.len() implies (
    #[trigger] after[i].1[k]).location == after[i].0 by {
        assert(after[i].0 == state.references[i].0);
        assert(after[i].1[k].location == state.references[i].1[k].location);
    }
}

/// The links from `from` on, each with the value that its target leads to in
/// `tree`, up to the first fault; the links behind a fault are as they were.
pub open spec fn resolve_links(found: Seq<Link>, tree: Json, from: int) -> (Seq<Link>, Option<Fault>)
    decreases found.len() - from,
{
    if from < 0 || from >= found.len() {
        (Seq::empty(), None)
    } else {
        match lookup(tree, found[from].target, found[from].target) {
            Err(fault) => (found.subrange(from, found.len() as int), Some(fault)),
            Ok(value) => {
                let first = Link { value: Some(value), ..found[from] };
                let rest = resolve_links(found, tree, from + 1);
                (seq![first] + rest.0, rest.1)
            },
        }
    }
}

/// The groups from `from` on after their links have been resolved in turn, up
/// to the first fault.
pub open spec fn resolve_groups(registry: Seq<(Seq<char>, Seq<Link>)>, tree: Json, from: int) -> (
    Seq<(Seq<char>, Seq<Link>)>,
    Option<Fault>,
)
    decreases registry.len() - from,
{
    if from < 0 || from >= registry.len() {
        (Seq::empty(), None)
    } else {
        let first = resolve_links(registry[from].1, tree, 0);
        if first.1 is Some {
            (
                seq![(registry[from].0, first.0)] + registry.subrange(
                    from + 1,
                    registry.len() as int,
                ),
                first.1,
            )
        } else {
            let rest = resolve_groups(registry, tree, from + 1);
            (seq![(registry[from].0, first.0)] + rest.0, rest.1)
        }
    }
}

/// `node` after the links of each group from `from` on have been written into
/// the strings that the group's owner path leads to, up to the first fault.
pub open spec fn apply_groups(node: Json, registry: Seq<(Seq<char>, Seq<Link>)>, sigil: char, from: int) -> Applied
    decreases registry.len() - from,
{
    if from < 0 || from >= registry.len() {
        Applied { node, fault: None }
    } else {
        let first = apply(node, split(registry[from].0, '.'), 0, registry[from].1, true, sigil);
        if first.fault is Some {
            first
        } else {
            apply_groups(first.node, registry, sigil, from + 1)
        }
    }
}

/// The token that stands for `target` in a string: the sigil, then the target
/// in braces.
pub open spec fn placeholder(sigil: char, target: Seq<char>) -> Seq<char> {
    seq![sigil, '{'] + target + seq!['}']
}

/// A tree after a pass over it, and why the pass stopped early, if it did.
pub struct Applied {
    pub node: Json,
    pub fault: Option<Fault>,
}

/// The string `node` with the placeholders of `link` replaced by the string
/// that `link` was resolved to. A link without a value changes nothing; a node
/// or a value that is no string is a fault.
pub open spec fn substitute(node: Json, link: Link, sigil: char) -> Applied {
    match link.value {
        None => Applied { node, fault: None },
        Some(value) => match (node, value) {
            (Json::String(text), Json::String(with)) => Applied {
                node: Json::String(replace_all(text, placeholder(sigil, link.target), with)),
                fault: None,
            },
            _ => Applied { node, fault: Some(Fault::UnsupportedSubstitution) },
        },
    }
}

/// `node` after the links from `from` on have been substituted one after the
/// other, up to the first fault.
pub open spec fn substitute_all(node: Json, found: Seq<Link>, sigil: char, from: int) -> Applied
    decreases found.len() - from,
{
    if from < 0 || from >= found.len() {
        Applied { node, fault: None }
    } else {
        let first = substitute(node, found[from], sigil);
        if first.fault is Some {
            first
        } else {
            substitute_all(first.node, found, sigil, from + 1)
        }
    }
}

/// `node` after the links have been substituted into every string that the
/// segments of `path` from `depth` on lead to. An array hands the path on to
/// each of its elements, and an element that the path does not fit is left as
/// it is; below a key of an object a segment that fits nothing is a fault.
pub open spec fn apply(
    node: Json,
    path: Seq<Seq<char>>,
    depth: int,
    found: Seq<Link>,
    hard_error: bool,
    sigil: char,
) -> Applied
    decreases node, 0nat,
{
    if 0 <= depth < path.len() {
        match node {
            Json::Array(items) => {
                let inner = apply_items(items, path, depth, found, sigil, 0);
                Applied { node: Json::Array(inner.0), fault: inner.1 }
            },
            Json::Object(members) => match find_key(members, path[depth], 0) {
                Some(i) => {
                    if 0 <= i < members.len() {
                        let inner = apply(members[i].1, path, depth + 1, found, true, sigil);
                        Applied {
                            node: Json::Object(members.update(i, (members[i].0, inner.node))),
                            fault: inner.fault,
                        }
                    } else {
                        Applied { node, fault: None }
                    }
                },
                None => Applied { node, fault: missing(path[depth], hard_error) },
            },
            _ => Applied { node, fault: missing(path[depth], hard_error) },
        }
    } else {
        substitute_all(node, found, sigil, 0)
    }
}

/// The elements of `items` from `from` on after [`apply`] has passed over them
/// in turn, up to the first fault.
pub open spec fn apply_items(
    items: Seq<Json>,
    path: Seq<Seq<char>>,
    depth: int,
    found: Seq<Link>,
    sigil: char,
    from: int,
) -> (Seq<Json>, Option<Fault>)
    decreases items, items.len() - from,
{
    if from < 0 || from >= items.len() {
        (Seq::empty(), None)
    } else {
        let first = apply(items[from], path, depth, found, false, sigil);
        if first.fault is Some {
            (seq![first.node] + items.subrange(from + 1, items.len() as int), first.fault)
        } else {
            let rest = apply_items(items, path, depth, found, sigil, from + 1);
            (seq![first.node] + rest.0, rest.1)
        }
    }
}

/// What a segment that fits nothing amounts to.
pub open spec fn missing(segment: Seq<char>, hard_error: bool) -> Option<Fault> {
    if hard_error {
        Some(Fault::UnknownKey(segment))
    } else {
        None
    }
}

/// Looks up the value that `path` leads to in `data`, for `reference`.
pub fn get_reference_value(data: &Value, reference: &Reference, path: &str) -> (r: Result<Value, Error>)
    ensures
        match r {
            Ok(value) => lookup(data@, path@, reference.target@) == Ok::<Json, Fault>(value@),
            Err(e) => lookup(data@, path@, reference.target@) == Err::<Json, Fault>(e@),
        },
{
    let segments = split_path(path);
    let mut current: &Value = data;
    let mut i: usize = 0;
    loop
        invariant
            i <= segments.len(),
            texts(segments@) == split(path@, '.'),
            resolve(current@, texts(segments@), i as int, reference.target@) == lookup(
                data@,
                path@,
                reference.target@,
            ),
        decreases segments.len() - i,
    {
        if i >= segments.len() {
            return Ok(current.clone());
        }
        let segment = &segments[i];
        assert(texts(segments@)[i as int] == segment@);
        match current.get(segment) {
            None => {
                return Err(
                    Error::NotFound {
                        target: reference.target.clone(),
                        missing_segment: segment.clone(),
                    },
                );
            },
            Some(value) => {
                proof {
                    lemma_json_of(*value);
                }
                match value {
                    Value::Object(_) => {
                        current = value;
                        i += 1;
                    },
                    Value::Array(_) => {
                        return Err(
                            Error::ArrayReference {
                                target: reference.target.clone(),
                                segment: segment.clone(),
                            },
                        );
                    },
                    _ => {
                        return Ok(value.clone());
                    },
                }
            },
        }
    }
}

/// Looks up the target of every reference of the registry in `data` and stores
/// the value found in the reference.
pub fn get_reference_values(data: &Value, ctx: &mut Context) -> (r: Result<(), Error>)
    ensures
        final(ctx)@.location == old(ctx)@.location,
        old(ctx)@.wf() ==> final(ctx)@.wf(),
        ({
            let resolved = resolve_groups(old(ctx)@.references, data@, 0);
            &&& final(ctx)@.references == resolved.0
            &&& match r {
                Ok(_) => resolved.1 is None,
                Err(e) => resolved.1 == Some(e@),
            }
        }),
{
    proof {
        if old(ctx)@.wf() {
            lemma_resolve_groups_wf(old(ctx)@, data@);
        }
    }
    let mut outcome: Result<(), Error> = Ok(());
    let n = ctx.references.len();
    let mut g: usize = 0;
    while g < n && outcome.is_ok()
        invariant
            g <= n,
            n == ctx.references@.len(),
            n == old(ctx).references@.len(),
            ctx.location == old(ctx).location,
            outcome is Ok ==> forall|j: int|
                g <= j < n ==> ctx.references@[j] == old(ctx).references@[j],
            ({
                let whole = resolve_groups(old(ctx)@.references, data@, 0);
                let rest = resolve_groups(old(ctx)@.references, data@, g as int);
                match outcome {
                    Ok(_) => ctx@.references.take(g as int) + rest.0 == whole.0 && rest.1
                        == whole.1,
                    Err(e) => ctx@.references == whole.0 && whole.1 == Some(e@),
                }
            }),
        decreases n - g, outcome.is_ok() as int,
    {
        let ghost before = ctx@.references;
        let ghost initial = old(ctx)@.references;
        assert(before[g as int] == initial[g as int]);
        let group = &mut ctx.references[g];
        let ghost owner = group.0@;
        let m = group.1.len();
        let mut k: usize = 0;
        while k < m && outcome.is_ok()
            invariant
                k <= m,
                m == group.1@.len(),
                m == initial[g as int].1.len(),
                group.0@ == owner,
                outcome is Ok ==> forall|j: int|
                    k <= j < m ==> (#[trigger] group.1@[j])@ == initial[g as int].1[j],
                ({
                    let whole = resolve_links(initial[g as int].1, data@, 0);
                    let rest = resolve_links(initial[g as int].1, data@, k as int);
                    match outcome {
                        Ok(_) => links(group.1@).take(k as int) + rest.0 == whole.0 && rest.1
                            == whole.1,
                        Err(e) => links(group.1@) == whole.0 && whole.1 == Some(e@),
                    }
                }),
            decreases m - k, outcome.is_ok() as int,
        {
            let ghost links_before = links(group.1@);
            let reference = &mut group.1[k];
            match get_reference_value(data, reference, reference.target.as_str()) {
                Ok(value) => {
                    reference.value = Some(value);
                },
                Err(e) => {
                    outcome = Err(e);
                },
            }
            proof {
                let now = links(group.1@);
                let source = initial[g as int].1;
                assert(now.take(k as int) == links_before.take(k as int));
                if outcome.is_ok() {
                    let rest = resolve_links(source, data@, k + 1);
                    assert(now.take(k + 1) + rest.0 == now.take(k as int) + (seq![now[k as int]]
                        + rest.0));
                } else {
                    assert(now == now.take(k as int) + source.subrange(k as int, m as int));
                }
            }
            if outcome.is_ok() {
                k += 1;
            }
        }
        proof {
            let now = ctx@.references;
            let first = resolve_links(initial[g as int].1, data@, 0);
            if outcome.is_ok() {
                assert(links(ctx.references@[g as int].1@).take(m as int) == links(
                    ctx.references@[g as int].1@,
                ));
                assert(first.0 + Seq::<Link>::empty() == first.0);
            }
            assert(now[g as int] == (initial[g as int].0, first.0));
            assert(now.take(g as int) == before.take(g as int));
            if outcome.is_ok() {
                let rest = resolve_groups(initial, data@, g + 1);
                assert(now.take(g + 1) + rest.0 == now.take(g as int) + (seq![now[g as int]]
                    + rest.0));
            } else {
                assert(now == now.take(g as int) + (seq![now[g as int]] + initial.subrange(
                    g + 1,
                    n as int,
                )));
            }
        }
        if outcome.is_ok() {
            g += 1;
        }
    }
    proof {
        if outcome.is_ok() {
            assert(ctx@.references.take(n as int) == ctx@.references);
            assert(ctx@.references + Seq::<(Seq<char>, Seq<Link>)>::empty() == ctx@.references);
        }
    }
    outcome
}

/// Writes the values of the references of every group of the registry into
/// the strings of `data` that the group's owner path leads to.
pub fn set_reference_values(data: &mut Value, ctx: &Context, sigil: char) -> (r: Result<(), Error>)
    ensures
        ({
            let applied = apply_groups(old(data)@, ctx@.references, sigil, 0);
            &&& final(data)@ == applied.node
            &&& match r {
                Ok(_) => applied.fault is None,
                Err(e) => applied.fault == Some(e@),
            }
        }),
{
    let mut outcome: Result<(), Error> = Ok(());
    let mut g: usize = 0;
    while g < ctx.references.len() && outcome.is_ok()
        invariant
            g <= ctx.references.len(),
            ({
                let whole = apply_groups(old(data)@, ctx@.references, sigil, 0);
                match outcome {
                    Ok(_) => apply_groups(data@, ctx@.references, sigil, g as int) == whole,
                    Err(e) => whole == (Applied { node: data@, fault: Some(e@) }),
                }
            }),
        decreases ctx.references.len() - g, outcome.is_ok() as int,
    {
        let group = &ctx.references[g];
        assert(ctx@.references[g as int] == (group.0@, links(group.1@)));
        let path = split_path(group.0.as_str());
        outcome = set_reference_value_at_target(data, &path, 0, &group.1, true, sigil);
        if outcome.is_ok() {
            g += 1;
        }
    }
    outcome
}

/// Substituting into a tree whose objects hold no key twice leaves such a
/// tree.
pub proof fn lemma_substitute_all_wf(node: Json, found: Seq<Link>, sigil: char, from: int)
    requires
        node.wf(),
    ensures
        substitute_all(node, found, sigil, from).node.wf(),
    decreases found.len() - from,
{
    if 0 <= from < found.len() {
        let first = substitute(node, found[from], sigil);
        if first.fault is None {
            lemma_substitute_all_wf(first.node, found, sigil, from + 1);
        }
    }
}

/// The second pass keeps the keys of every object: a tree whose objects hold
/// no key twice stays one, whether the pass ends in a fault or not.
pub proof fn lemma_apply_wf(
    node: Json,
    path: Seq<Seq<char>>,
    depth: int,
    found: Seq<Link>,
    hard_error: bool,
    sigil: char,
)
    requires
        node.wf(),
    ensures
        apply(node, path, depth, found, hard_error, sigil).node.wf(),
    decreases node, 0nat,
{
    if 0 <= depth < path.len() {
        match node {
            Json::Array(items) => {
                lemma_apply_items_wf(items, path, depth, found, sigil, 0);
            },
            Json::Object(members) => {
                lemma_find_key(members, path[depth], 0);
                match find_key(members, path[depth], 0) {
                    Some(i) => {
                        lemma_apply_wf(members[i].1, path, depth + 1, found, true, sigil);
                        let inner = apply(members[i].1, path, depth + 1, found, true, sigil);
                        let after = members.update(i, (members[i].0, inner.node));
                        assert forall|j: int| 0 <= j < after.len() implies (#[trigger] after[j]).1.wf() by {
                            if j != i {
                                assert(after[j] == members[j]);
                            }
                        }
                        assert forall|j: int, k: int| 0 <= j < k < after.len() implies (
                        #[trigger] after[j]).0 != (#[trigger] after[k]).0 by {
                            assert(after[j].0 == members[j].0);
                            assert(after[k].0 == members[k].0);
                        }
                    },
                    None => {},
                }
            },
            _ => {},
        }
    } else {
        lemma_substitute_all_wf(node, found, sigil, 0);
    }
}

/// The second pass over the elements of an array keeps each of them a tree
/// whose objects hold no key twice.
pub proof fn lemma_apply_items_wf(
    items: Seq<Json>,
    path: Seq<Seq<char>>,
    depth: int,
    found: Seq<Link>,
    sigil: char,
    from: int,
)
    requires
        0 <= from <= items.len(),
        forall|i: int| 0 <= i < items.len() ==> (#[trigger] items[i]).wf(),
    ensures
        apply_items(items, path, depth, found, sigil, from).0.len() == items.len() - from,
        forall|k: int|
            0 <= k < items.len() - from ==> (#[trigger] apply_items(
                items,
                path,
                depth,
                found,
                sigil,
                from,
            ).0[k]).wf(),
    decreases items, items.len() - from,
{
    if from < items.len() {
        lemma_apply_wf(items[from], path, depth, found, false, sigil);
        let first = apply(items[from], path, depth, found, false, sigil);
        if first.fault is None {
            lemma_apply_items_wf(items, path, depth, found, sigil, from + 1);
        }
    }
}

/// The second pass over all groups keeps a tree whose objects hold no key
/// twice.
pub proof fn lemma_apply_groups_wf(
    node: Json,
    registry: Seq<(Seq<char>, Seq<Link>)>,
    sigil: char,
    from: int,
)
    requires
        node.wf(),
    ensures
        apply_groups(node, registry, sigil, from).node.wf(),
    decreases registry.len() - from,
{
    if 0 <= from < registry.len() {
        let path = split(registry[from].0, '.');
        lemma_apply_wf(node, path, 0, registry[from].1, true, sigil);
        let first = apply(node, path, 0, registry[from].1, true, sigil);
        if first.fault is None {
            lemma_apply_groups_wf(first.node, registry, sigil, from + 1);
        }
    }
}

/// The placeholder token for `target`.
pub fn placeholder_token(sigil: char, target: &String) -> (r: String)
    ensures
        r@ == placeholder(sigil, target@),
{
    let mut token = String::new();
    token.push(sigil);
    token.push('{');
    token.append(target.as_str());
    token.push('}');
    token
}

/// Writes the values that `references` were resolved to into every string that
/// the segments of `path` from `depth` on lead to, starting at `data`.
pub fn set_reference_value_at_target(
    data: &mut Value,
    path: &Vec<String>,
    depth: usize,
    references: &Vec<Reference>,
    hard_error: bool,
    sigil: char,
) -> (r: Result<(), Error>)
    ensures
        ({
            let applied = apply(
                old(data)@,
                texts(path@),
                depth as int,
                links(references@),
                hard_error,
                sigil,
            );
            &&& final(data)@ == applied.node
            &&& match r {
                Ok(_) => applied.fault is None,
                Err(e) => applied.fault == Some(e@),
            }
        }),
    decreases *old(data),
{
    let mut outcome: Result<(), Error> = Ok(());
    if depth < path.len() {
        let key = &path[depth];
        match data {
            Value::Array(items) => {
                let n = items.len();
                let mut i: usize = 0;
                while i < n && outcome.is_ok()
                    invariant
                        i <= n,
                        n == items@.len(),
                        *old(data) is Array,
                        n == old(data)->Array_0@.len(),
                        depth < path.len(),
                        outcome is Ok ==> forall|j: int|
                            i <= j < n ==> items@[j] == old(data)->Array_0@[j],
                        ({
                            let whole = apply_items(
                                items_model(old(data)->Array_0@),
                                texts(path@),
                                depth as int,
                                links(references@),
                                sigil,
                                0,
                            );
                            let rest = apply_items(
                                items_model(old(data)->Array_0@),
                                texts(path@),
                                depth as int,
                                links(references@),
                                sigil,
                                i as int,
                            );
                            match outcome {
                                Ok(_) => items_model(items@).take(i as int) + rest.0 == whole.0
                                    && rest.1 == whole.1,
                                Err(e) => items_model(items@) == whole.0 && whole.1 == Some(e@),
                            }
                        }),
                    decreases n - i, outcome.is_ok() as int,
                {
                    let ghost before = items_model(items@);
                    let slot = &mut items[i];
                    assert(decreases_to!(old(data)->Array_0 => old(data)->Array_0[i as int]));
                    outcome =
                    set_reference_value_at_target(slot, path, depth, references, false, sigil);
                    proof {
                        let initial = items_model(old(data)->Array_0@);
                        let first = apply(
                            initial[i as int],
                            texts(path@),
                            depth as int,
                            links(references@),
                            false,
                            sigil,
                        );
                        let now = items_model(items@);
                        assert(now[i as int] == first.node);
                        assert(now.take(i as int) == before.take(i as int));
                        if outcome.is_ok() {
                            let rest = apply_items(
                                initial,
                                texts(path@),
                                depth as int,
                                links(references@),
                                sigil,
                                i + 1,
                            );
                            assert(now.take(i + 1) + rest.0 == now.take(i as int) + (seq![
                                first.node,
                            ] + rest.0));
                        } else {
                            let tail = initial.subrange(i + 1, n as int);
                            assert(now == now.take(i as int) + (seq![first.node] + tail));
                        }
                    }
                    if outcome.is_ok() {
                        i += 1;
                    }
                }
                proof {
                    if outcome.is_ok() {
                        assert(items_model(items@).take(n as int) == items_model(items@));
                        assert(items_model(items@) + Seq::<Json>::empty() == items_model(items@));
                    }
                }
            },
            Value::Object(members) => {
                match crate::value::position(members, key) {
                    Some(i) => {
                        let slot = &mut members[i];
                        assert(decreases_to!(old(data)->Object_0 => old(data)->Object_0[i as int]));
                        outcome =
                        set_reference_value_at_target(
                            &mut slot.1,
                            path,
                            depth + 1,
                            references,
                            true,
                            sigil,
                        );
                        proof {
                            let initial = members_model(old(data)->Object_0@);
                            let inner = apply(
                                initial[i as int].1,
                                texts(path@),
                                depth + 1,
                                links(references@),
                                true,
                                sigil,
                            );
                            assert(members_model(members@) == initial.update(
                                i as int,
                                (initial[i as int].0, inner.node),
                            ));
                        }
                    },
                    None => {
                        if hard_error {
                            outcome = Err(Error::UnknownKey(key.clone()));
                        }
                    },
                }
            },
            _ => {
                if hard_error {
                    outcome = Err(Error::UnknownKey(key.clone()));
                }
            },
        }
        proof {
            lemma_json_of(*old(data));
            lemma_json_of(*data);
        }
    } else {
        let mut k: usize = 0;
        while k < references.len() && outcome.is_ok()
            invariant
                k <= references.len(),
                ({
                    let whole = substitute_all(old(data)@, links(references@), sigil, 0);
                    match outcome {
                        Ok(_) => substitute_all(data@, links(references@), sigil, k as int)
                            == whole,
                        Err(e) => whole == (Applied { node: data@, fault: Some(e@) }),
                    }
                }),
            decreases references.len() - k, outcome.is_ok() as int,
        {
            let reference = &references[k];
            assert(links(references@)[k as int] == reference@);
            match &reference.value {
                Some(value) => match (&*data, value) {
                    (Value::String(text), Value::String(with)) => {
                        let token = placeholder_token(sigil, &reference.target);
                        let replaced = replace(text.as_str(), token.as_str(), with.as_str());
                        *data = Value::String(replaced);
                    },
                    _ => {
                        outcome = Err(Error::UnsupportedSubstitution);
                    },
                },
                None => {},
            }
            if outcome.is_ok() {
                k += 1;
            }
        }
    }
    outcome
}

} // verus!
