//! Symbolic links of a package, resolved to their final targets.
//!
//! The links are given as pairs of a link's path and the path it points at. A
//! link's final target is where the chain of links that starts at it ends;
//! a chain that runs in a circle ends nowhere, and such a link has no target.

use vstd::hash_map::StringHashMap;
use vstd::hash_set::StringHashSet;
use vstd::prelude::*;
use vstd::set_lib::lemma_len_subset;
use crate::sequences::{lemma_filter_push, lemma_texts_push};
use crate::text::{text_equal, texts_of};

verus! {

/// The paths of a list of pairs of a link and what it points at.
pub open spec fn pair_views(pairs: Seq<(String, String)>) -> Seq<(Seq<char>, Seq<char>)> {
    pairs.map_values(|pair: (String, String)| (pair.0@, pair.1@))
}

/// What each link points at, according to a list of pairs; of several pairs
/// for one link the last counts.
pub open spec fn targets_of(pairs: Seq<(Seq<char>, Seq<char>)>) -> Map<Seq<char>, Seq<char>>
    decreases pairs.len(),
{
    if pairs.len() == 0 {
        Map::empty()
    } else {
        targets_of(pairs.drop_last()).insert(pairs.last().0, pairs.last().1)
    }
}

/// Whether a list of paths follows the links: each path but the last is a
/// link, and points at the next.
pub open spec fn is_trail(targets: Map<Seq<char>, Seq<char>>, trail: Seq<Seq<char>>) -> bool {
    &&& trail.len() >= 1
    &&& forall|i: int|
        0 <= i < trail.len() - 1 ==> targets.contains_key(#[trigger] trail[i]) && targets[trail[i]]
            == trail[i + 1]
}

/// Whether a link leads to a final target: a trail goes from the link to the
/// target, and the target is no link itself.
pub open spec fn leads_to(
    targets: Map<Seq<char>, Seq<char>>,
    link: Seq<char>,
    target: Seq<char>,
) -> bool {
    exists|trail: Seq<Seq<char>>|
        #[trigger] is_trail(targets, trail) && trail.len() >= 2 && trail.first() == link
            && trail.last() == target && !targets.contains_key(target)
}

/// Two trails from the same path agree as far as both go.
proof fn lemma_trails_agree(
    targets: Map<Seq<char>, Seq<char>>,
    first: Seq<Seq<char>>,
    second: Seq<Seq<char>>,
    at: int,
)
    requires
        is_trail(targets, first),
        is_trail(targets, second),
        first.first() == second.first(),
        0 <= at < first.len(),
        at < second.len(),
    ensures
        first[at] == second[at],
    decreases at,
{
    if at > 0 {
        lemma_trails_agree(targets, first, second, at - 1);
        assert(targets[first[at - 1]] == first[at]);
        assert(targets[second[at - 1]] == second[at]);
    }
}

/// A link leads to at most one final target.
pub proof fn lemma_final_target_is_unique(
    targets: Map<Seq<char>, Seq<char>>,
    link: Seq<char>,
    one: Seq<char>,
    other: Seq<char>,
)
    requires
        leads_to(targets, link, one),
        leads_to(targets, link, other),
    ensures
        one == other,
{
    let first = choose|trail: Seq<Seq<char>>|
        #[trigger] is_trail(targets, trail) && trail.len() >= 2 && trail.first() == link
            && trail.last() == one && !targets.contains_key(one);
    let second = choose|trail: Seq<Seq<char>>|
        #[trigger] is_trail(targets, trail) && trail.len() >= 2 && trail.first() == link
            && trail.last() == other && !targets.contains_key(other);
    if first.len() < second.len() {
        lemma_trails_agree(targets, first, second, first.len() - 1);
        assert(targets.contains_key(second[first.len() - 1]));
    } else if second.len() < first.len() {
        lemma_trails_agree(targets, first, second, second.len() - 1);
        assert(targets.contains_key(first[second.len() - 1]));
    } else {
        lemma_trails_agree(targets, first, second, first.len() - 1);
    }
}

/// A trail that comes back to a path it has passed goes on in a circle: every
/// trail from the same start stays among the links passed.
proof fn lemma_circle_holds(
    targets: Map<Seq<char>, Seq<char>>,
    circle: Seq<Seq<char>>,
    back: int,
    other: Seq<Seq<char>>,
    at: int,
)
    requires
        is_trail(targets, circle),
        0 <= back < circle.len() - 1,
        circle[back] == circle.last(),
        is_trail(targets, other),
        other.first() == circle.first(),
        0 <= at < other.len(),
    ensures
        exists|i: int| 0 <= i < circle.len() - 1 && #[trigger] circle[i] == other[at],
    decreases at,
{
    if at == 0 {
        assert(circle[0] == other[0]);
    } else {
        lemma_circle_holds(targets, circle, back, other, at - 1);
        let i = choose|i: int| 0 <= i < circle.len() - 1 && #[trigger] circle[i] == other[at - 1];
        assert(targets[other[at - 1]] == other[at]);
        assert(targets[circle[i]] == circle[i + 1]);
        if i + 1 < circle.len() - 1 {
            assert(circle[i + 1] == other[at]);
        } else {
            assert(circle[back] == other[at]);
        }
    }
}

/// A link whose trail comes back to a path it has passed leads nowhere.
proof fn lemma_circle_leads_nowhere(
    targets: Map<Seq<char>, Seq<char>>,
    circle: Seq<Seq<char>>,
    back: int,
)
    requires
        is_trail(targets, circle),
        0 <= back < circle.len() - 1,
        circle[back] == circle.last(),
    ensures
        forall|target: Seq<char>| !leads_to(targets, circle.first(), target),
{
    assert forall|target: Seq<char>| !leads_to(targets, circle.first(), target) by {
        if leads_to(targets, circle.first(), target) {
            let other = choose|trail: Seq<Seq<char>>|
                #[trigger] is_trail(targets, trail) && trail.len() >= 2 && trail.first()
                    == circle.first() && trail.last() == target && !targets.contains_key(target);
            lemma_circle_holds(targets, circle, back, other, other.len() - 1);
            let i = choose|i: int|
                0 <= i < circle.len() - 1 && #[trigger] circle[i] == other[other.len() - 1];
            assert(targets.contains_key(circle[i]));
        }
    }
}

/// Whether an entry of resolved links has a given final target.
pub open spec fn has_target(target: Seq<char>) -> spec_fn((Seq<char>, Seq<char>)) -> bool {
    |entry: (Seq<char>, Seq<char>)| entry.1 == target
}

/// The link of an entry of resolved links.
pub open spec fn link_of() -> spec_fn((Seq<char>, Seq<char>)) -> Seq<char> {
    |entry: (Seq<char>, Seq<char>)| entry.0
}

/// The links, of a list of resolved links, whose final target is the given
/// one, in the order of the list.
pub open spec fn links_to(mapping: Seq<(Seq<char>, Seq<char>)>, target: Seq<char>) -> Seq<
    Seq<char>,
> {
    mapping.filter(has_target(target)).map_values(link_of())
}

/// A link whose final target is the given one is among the links to it.
pub proof fn lemma_links_to_holds(
    mapping: Seq<(Seq<char>, Seq<char>)>,
    target: Seq<char>,
    at: int,
)
    requires
        0 <= at < mapping.len(),
        mapping[at].1 == target,
    ensures
        links_to(mapping, target).contains(mapping[at].0),
{
    mapping.lemma_filter_contains(has_target(target), at);
    let found = mapping.filter(has_target(target));
    let i = choose|i: int| 0 <= i < found.len() && found[i] == mapping[at];
    assert(links_to(mapping, target)[i] == mapping[at].0);
}

/// Whether a list of resolved links holds a link.
pub open spec fn holds_link(resolved: Seq<(Seq<char>, Seq<char>)>, link: Seq<char>) -> bool {
    exists|i: int| 0 <= i < resolved.len() && (#[trigger] resolved[i]).0 == link
}

/// The final target that a link leads to, where it leads to one.
pub open spec fn final_of(targets: Map<Seq<char>, Seq<char>>, link: Seq<char>) -> Seq<char> {
    choose|target: Seq<char>| leads_to(targets, link, target)
}

/// The links among the first pairs that lead to a final target, each once and
/// with its target, in the order in which the pairs first name them.
pub open spec fn resolved(pairs: Seq<(Seq<char>, Seq<char>)>, upto: int) -> Seq<
    (Seq<char>, Seq<char>),
>
    decreases upto,
{
    if upto <= 0 {
        Seq::empty()
    } else {
        let before = resolved(pairs, upto - 1);
        let link = pairs[upto - 1].0;
        if holds_link(before, link) || !exists|target: Seq<char>|
            leads_to(targets_of(pairs), link, target) {
            before
        } else {
            before.push((link, final_of(targets_of(pairs), link)))
        }
    }
}

/// The paths that the strings of a table stand for.
pub open spec fn link_view(targets: Map<Seq<char>, String>) -> Map<Seq<char>, Seq<char>> {
    targets.map_values(|target: String| target@)
}

/// Follows the links from a path to the final target.
fn chase(targets: &StringHashMap<String>, by: &str) -> (end: Option<String>)
    requires
        targets@.dom().finite(),
    ensures
        match end {
            Some(target) => leads_to(link_view(targets@), by@, target@),
            None => forall|target: Seq<char>| !leads_to(link_view(targets@), by@, target),
        },
{
    let ghost view = link_view(targets@);
    let mut current: String = match targets.get(by) {
        Some(target) => target.clone(),
        None => {
            assert forall|target: Seq<char>| !leads_to(view, by@, target) by {
                if leads_to(view, by@, target) {
                    let trail = choose|trail: Seq<Seq<char>>|
                        #[trigger] is_trail(view, trail) && trail.len() >= 2 && trail.first() == by@
                            && trail.last() == target && !view.contains_key(target);
                    assert(view.contains_key(trail[0]));
                }
            }
            return None;
        },
    };
    let mut seen = StringHashSet::new();
    let ghost mut trail: Seq<Seq<char>> = seq![by@, current@];
    assert(is_trail(view, trail)) by {
        assert forall|i: int| 0 <= i < trail.len() - 1 implies view.contains_key(
            #[trigger] trail[i],
        ) && view[trail[i]] == trail[i + 1] by {
            assert(trail[0] == by@);
        }
    }
    loop
        invariant
            targets@.dom().finite(),
            view == link_view(targets@),
            is_trail(view, trail),
            trail.len() >= 2,
            trail.first() == by@,
            trail.last() == current@,
            forall|name: Seq<char>|
                seen@.contains(name) ==> targets@.dom().contains(name) && exists|i: int|
                    1 <= i < trail.len() - 1 && #[trigger] trail[i] == name,
        decreases targets@.dom().difference(seen@).len(),
    {
        let next = match targets.get(current.as_str()) {
            Some(target) => target.clone(),
            None => {
                return Some(current);
            },
        };
        if seen.contains(current.as_str()) {
            proof {
                let back = choose|i: int| 1 <= i < trail.len() - 1 && #[trigger] trail[i] == current@;
                lemma_circle_leads_nowhere(view, trail, back);
            }
            return None;
        }
        proof {
            let before = targets@.dom().difference(seen@);
            let after = targets@.dom().difference(seen@.insert(current@));
            assert(before.contains(current@));
            assert(after.subset_of(before.remove(current@)));
            lemma_len_subset(after, before.remove(current@));
        }
        let ghost passed = trail;
        seen.insert(current);
        proof {
            trail = passed.push(next@);
            assert forall|i: int| 0 <= i < trail.len() - 1 implies view.contains_key(
                #[trigger] trail[i],
            ) && view[trail[i]] == trail[i + 1] by {
                if i < passed.len() - 1 {
                    assert(trail[i] == passed[i]);
                    assert(trail[i + 1] == passed[i + 1]);
                }
            }
            assert forall|name: Seq<char>| seen@.contains(name) implies targets@.dom().contains(
                name,
            ) && exists|i: int| 1 <= i < trail.len() - 1 && #[trigger] trail[i] == name by {
                if name == passed.last() {
                    assert(trail[passed.len() - 1] == name);
                } else {
                    let i = choose|i: int| 1 <= i < passed.len() - 1 && #[trigger] passed[i] == name;
                    assert(trail[i] == name);
                }
            }
        }
        current = next;
    }
}

/// Builds the table of what each link points at.
fn link_table(links: &Vec<(String, String)>) -> (targets: StringHashMap<String>)
    ensures
        targets@.dom().finite(),
        link_view(targets@) == targets_of(pair_views(links@)),
{
    let mut targets: StringHashMap<String> = StringHashMap::new();
    let mut at: usize = 0;
    assert(pair_views(links@).subrange(0, 0) =~= Seq::<(Seq<char>, Seq<char>)>::empty());
    assert(link_view(targets@) =~= Map::<Seq<char>, Seq<char>>::empty());
    while at < links.len()
        invariant
            at <= links.len(),
            targets@.dom().finite(),
            link_view(targets@) == targets_of(pair_views(links@).subrange(0, at as int)),
        decreases links.len() - at,
    {
        let ghost before = targets@;
        let ghost upto = pair_views(links@).subrange(0, at + 1);
        targets.insert(links[at].0.clone(), links[at].1.clone());
        proof {
            assert(upto.drop_last() =~= pair_views(links@).subrange(0, at as int));
            assert(upto.last() == (links@[at as int].0@, links@[at as int].1@));
            assert(link_view(targets@) =~= link_view(before).insert(
                links@[at as int].0@,
                links@[at as int].1@,
            ));
        }
        at += 1;
    }
    assert(pair_views(links@).subrange(0, at as int) =~= pair_views(links@));
    targets
}

/// The links of a package, each with its final target.
#[derive(Debug)]
pub struct Symlinks {
    mapping: Vec<(String, String)>,
}

impl Symlinks {
    /// The links that have a final target, each with that target.
    pub closed spec fn mapping(&self) -> Seq<(Seq<char>, Seq<char>)> {
        pair_views(self.mapping@)
    }

    /// The final target of a path among the given links: where the chain of
    /// links from it ends. There is none for a path that is no link, and none
    /// for a link whose chain runs in a circle.
    pub fn final_target(links: &Vec<(String, String)>, by: &str) -> (end: Option<String>)
        ensures
            match end {
                Some(target) => leads_to(targets_of(pair_views(links@)), by@, target@),
                None => forall|target: Seq<char>|
                    !leads_to(targets_of(pair_views(links@)), by@, target),
            },
    {
        let targets = link_table(links);
        chase(&targets, by)
    }

    /// Resolves every link to its final target. A link without one is left
    /// out; every other link is kept once, with its target, in the order in
    /// which the pairs first name the links.
    pub fn new(links: Vec<(String, String)>) -> (symlinks: Symlinks)
        ensures
            symlinks.mapping() == resolved(pair_views(links@), links@.len() as int),
            forall|link: Seq<char>, target: Seq<char>|
                symlinks.mapping().contains((link, target)) <==> leads_to(
                    targets_of(pair_views(links@)),
                    link,
                    target,
                ),
            forall|i: int, j: int|
                0 <= i < j < symlinks.mapping().len() ==> symlinks.mapping()[i].0
                    != symlinks.mapping()[j].0,
    {
        let targets = link_table(&links);
        let ghost view = targets_of(pair_views(links@));
        let mut mapping: Vec<(String, String)> = Vec::new();
        let mut at: usize = 0;
        while at < links.len()
            invariant
                at <= links.len(),
                targets@.dom().finite(),
                view == targets_of(pair_views(links@)),
                link_view(targets@) == view,
                forall|i: int|
                    0 <= i < mapping@.len() ==> leads_to(
                        view,
                        (#[trigger] mapping@[i]).0@,
                        mapping@[i].1@,
                    ),
                forall|j: int, target: Seq<char>|
                    0 <= j < at && #[trigger] leads_to(view, links@[j].0@, target) ==> exists|
                        i: int,
                    |
                        0 <= i < mapping@.len() && (#[trigger] mapping@[i]).0@ == links@[j].0@
                            && mapping@[i].1@ == target,
                forall|i: int, j: int|
                    0 <= i < j < mapping@.len() ==> (#[trigger] mapping@[i]).0@
                        != (#[trigger] mapping@[j]).0@,
                pair_views(mapping@) == resolved(pair_views(links@), at as int),
            decreases links.len() - at,
        {
            let link = links[at].0.as_str();
            proof {
                assert(pair_views(links@)[at as int].0 == link@);
                assert(holds_link(pair_views(mapping@), link@) <==> exists|i: int|
                    0 <= i < mapping@.len() && (#[trigger] mapping@[i]).0@ == link@) by {
                    if holds_link(pair_views(mapping@), link@) {
                        let i = choose|i: int|
                            0 <= i < pair_views(mapping@).len() && (#[trigger] pair_views(
                                mapping@,
                            )[i]).0 == link@;
                        assert(mapping@[i].0@ == link@);
                    }
                    if exists|i: int|
                        0 <= i < mapping@.len() && (#[trigger] mapping@[i]).0@ == link@ {
                        let i = choose|i: int|
                            0 <= i < mapping@.len() && (#[trigger] mapping@[i]).0@ == link@;
                        assert(pair_views(mapping@)[i].0 == link@);
                    }
                }
            }
            if !Self::has_link(&mapping, link) {
                match chase(&targets, link) {
                    Some(target) => {
                        let ghost before = mapping@;
                        proof {
                            lemma_final_target_is_unique(
                                view,
                                link@,
                                target@,
                                final_of(view, link@),
                            );
                        }
                        mapping.push((links[at].0.clone(), target));
                        proof {
                            assert(pair_views(mapping@) =~= pair_views(before).push(
                                (link@, target@),
                            ));
                            assert forall|j: int, other: Seq<char>|
                                0 <= j < at + 1 && #[trigger] leads_to(
                                    view,
                                    links@[j].0@,
                                    other,
                                ) implies exists|i: int|
                                0 <= i < mapping@.len() && (#[trigger] mapping@[i]).0@
                                    == links@[j].0@ && mapping@[i].1@ == other by {
                                if j < at {
                                    let i = choose|i: int|
                                        0 <= i < before.len() && (#[trigger] before[i]).0@
                                            == links@[j].0@ && before[i].1@ == other;
                                    assert(mapping@[i] == before[i]);
                                } else {
                                    lemma_final_target_is_unique(
                                        view,
                                        link@,
                                        other,
                                        mapping@[before.len() as int].1@,
                                    );
                                    assert(mapping@[before.len() as int].0@ == links@[j].0@);
                                }
                            }
                        }
                    },
                    None => {},
                }
            } else {
                proof {
                    let held = choose|i: int|
                        0 <= i < mapping@.len() && (#[trigger] mapping@[i]).0@ == link@;
                    assert forall|target: Seq<char>|
                        leads_to(view, links@[at as int].0@, target) implies exists|i: int|
                        0 <= i < mapping@.len() && (#[trigger] mapping@[i]).0@ == links@[at as int].0@
                            && mapping@[i].1@ == target by {
                        lemma_final_target_is_unique(view, link@, target, mapping@[held].1@);
                    }
                }
            }
            at += 1;
        }
        let symlinks = Symlinks { mapping };
        proof {
            let held = symlinks.mapping();
            assert forall|link: Seq<char>, target: Seq<char>|
                held.contains((link, target)) <==> leads_to(view, link, target) by {
                if held.contains((link, target)) {
                    let i = choose|i: int| 0 <= i < held.len() && held[i] == (link, target);
                    assert(held[i] == (symlinks.mapping@[i].0@, symlinks.mapping@[i].1@));
                }
                if leads_to(view, link, target) {
                    lemma_link_is_listed(pair_views(links@), link, target);
                    let j = choose|j: int|
                        0 <= j < pair_views(links@).len() && pair_views(links@)[j].0 == link;
                    assert(links@[j].0@ == link);
                    let i = choose|i: int|
                        0 <= i < symlinks.mapping@.len() && (#[trigger] symlinks.mapping@[i]).0@
                            == links@[j].0@ && symlinks.mapping@[i].1@ == target;
                    assert(held[i] == (link, target));
                }
            }
            assert forall|i: int, j: int| 0 <= i < j < held.len() implies held[i].0 != held[j].0 by {
                assert(held[i].0 == symlinks.mapping@[i].0@);
                assert(held[j].0 == symlinks.mapping@[j].0@);
            }
        }
        symlinks
    }

    /// Whether a link is among the resolved ones.
    fn has_link(mapping: &Vec<(String, String)>, link: &str) -> (held: bool)
        ensures
            held == exists|i: int| 0 <= i < mapping@.len() && (#[trigger] mapping@[i]).0@ == link@,
    {
        let mut at: usize = 0;
        while at < mapping.len()
            invariant
                at <= mapping.len(),
                forall|i: int| 0 <= i < at ==> (#[trigger] mapping@[i]).0@ != link@,
            decreases mapping.len() - at,
        {
            if text_equal(mapping[at].0.as_str(), link) {
                return true;
            }
            at += 1;
        }
        false
    }

    /// The links whose final target is `target`.
    pub fn links(&self, target: &str) -> (found: Vec<String>)
        ensures
            texts_of(found@) == links_to(self.mapping(), target@),
    {
        let ghost all = self.mapping();
        let mut found: Vec<String> = Vec::new();
        let mut at: usize = 0;
        assert(all.subrange(0, 0) =~= Seq::<(Seq<char>, Seq<char>)>::empty());
        assert(texts_of(found@) =~= Seq::<Seq<char>>::empty());
        while at < self.mapping.len()
            invariant
                at <= self.mapping.len(),
                all == self.mapping(),
                texts_of(found@) == links_to(all.subrange(0, at as int), target@),
            decreases self.mapping.len() - at,
        {
            let ghost before = all.subrange(0, at as int);
            proof {
                assert(all.subrange(0, at + 1) =~= before.push(all[at as int]));
                assert(all[at as int] == (self.mapping@[at as int].0@, self.mapping@[at as int].1@));
                lemma_filter_push(before, all[at as int], has_target(target@));
            }
            if text_equal(self.mapping[at].1.as_str(), target) {
                let link = self.mapping[at].0.clone();
                proof {
                    lemma_texts_push(found@, link);
                    assert(before.filter(has_target(target@)).push(all[at as int]).map_values(
                        link_of(),
                    ) =~= before.filter(has_target(target@)).map_values(link_of()).push(link@));
                }
                found.push(link);
            }
            at += 1;
        }
        assert(all.subrange(0, at as int) =~= all);
        found
    }
}

/// A link that leads somewhere is listed in the pairs.
proof fn lemma_link_is_listed(
    pairs: Seq<(Seq<char>, Seq<char>)>,
    link: Seq<char>,
    target: Seq<char>,
)
    requires
        leads_to(targets_of(pairs), link, target),
    ensures
        exists|j: int| 0 <= j < pairs.len() && pairs[j].0 == link,
{
    let trail = choose|trail: Seq<Seq<char>>|
        #[trigger] is_trail(targets_of(pairs), trail) && trail.len() >= 2 && trail.first() == link
            && trail.last() == target && !targets_of(pairs).contains_key(target);
    assert(targets_of(pairs).contains_key(trail[0]));
    lemma_listed_links(pairs, link);
}

/// What the table of the pairs knows as a link is the link of one of them.
proof fn lemma_listed_links(pairs: Seq<(Seq<char>, Seq<char>)>, link: Seq<char>)
    requires
        targets_of(pairs).contains_key(link),
    ensures
        exists|j: int| 0 <= j < pairs.len() && pairs[j].0 == link,
    decreases pairs.len(),
{
    if pairs.len() > 0 {
        if pairs.last().0 == link {
            assert(pairs[pairs.len() - 1].0 == link);
        } else {
            lemma_listed_links(pairs.drop_last(), link);
            let j = choose|j: int| 0 <= j < pairs.drop_last().len() && pairs.drop_last()[j].0 == link;
            assert(pairs[j].0 == link);
        }
    }
}

} // verus!
