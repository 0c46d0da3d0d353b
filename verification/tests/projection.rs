//! The visibility rule lives in one place and every read obeys it.

#![allow(dead_code)]


use folkengine::{
    Action, ActorId, Event, FolkError, Folksonomy, ItemId, Selection, TagCount, TagId, TagRef,
    Visibility,
};

fn actor(s: &str) -> ActorId {
    ActorId::new(s)
}

fn item(s: &str) -> ItemId {
    ItemId::new(s)
}

/// Apply and unwrap, returning the next state and events.
fn step(s: &Folksonomy, who: &str, a: Action) -> (Folksonomy, Vec<Event>) {
    let t = s.apply(&actor(who), a).expect("action should succeed");
    (t.state, t.events)
}

/// Apply and expect an error.
fn fails(s: &Folksonomy, who: &str, a: Action) -> FolkError {
    match s.apply(&actor(who), a) {
        Ok(_) => panic!("action should fail"),
        Err(e) => e,
    }
}

/// Define a tag and return the new state and its id.
fn define(s: &Folksonomy, who: &str, label: &str, parents: &[TagId]) -> (Folksonomy, TagId) {
    let (s, ev) = step(
        s,
        who,
        Action::DefineTag {
            label: label.to_owned(),
            parents: parents.to_vec(),
        },
    );
    match &ev[..] {
        [Event::TagDefined { tag, .. }] => (s, *tag),
        other => panic!("expected one TagDefined, got {other:?}"),
    }
}

fn tag(s: &Folksonomy, who: &str, it: &str, t: TagId, v: Visibility) -> Folksonomy {
    step(
        s,
        who,
        Action::Tag {
            item: item(it),
            tag: t,
            visibility: v,
        },
    )
    .0
}

fn open() -> Folksonomy {
    Folksonomy::empty(Vec::new())
}

fn curated(curators: &[&str]) -> Folksonomy {
    Folksonomy::empty(curators.iter().map(|c| ActorId::new(c)).collect())
}

/// The diamond: languages <- rust -> systems; rust has two parents.
struct Diamond {
    s: Folksonomy,
    languages: TagId,
    systems: TagId,
    rust: TagId,
}

fn diamond() -> Diamond {
    let s = open();
    let (s, languages) = define(&s, "alice", "Languages", &[]);
    let (s, systems) = define(&s, "alice", "Systems Programming", &[]);
    let (s, rust) = define(&s, "alice", "Rust", &[languages, systems]);
    Diamond {
        s,
        languages,
        systems,
        rust,
    }
}


#[test]
fn private_bindings_are_visible_only_to_their_tagger_everywhere() {
    let d = diamond();
    let s = tag(&d.s, "alice", "shared", d.rust, Visibility::Public);
    let s = tag(&s, "bob", "secret", d.rust, Visibility::Private);
    let s = tag(&s, "bob", "shared", d.languages, Visibility::Private);
    let alice = actor("alice");
    let bob = actor("bob");
    let carol = actor("carol");

    // view_for
    assert_eq!(s.view_for(&alice).bindings.len(), 1);
    assert_eq!(s.view_for(&bob).bindings.len(), 3);
    assert_eq!(s.view_for(&carol).bindings.len(), 1);
    assert_eq!(
        s.view_for(&carol).tags.len(),
        3,
        "the vocabulary itself is public"
    );

    // query
    let everything = Selection::everything();
    assert_eq!(s.query(&alice, &everything).unwrap(), vec![item("shared")]);
    assert_eq!(
        s.query(&bob, &everything).unwrap(),
        vec![item("secret"), item("shared")]
    );

    // facets: bob's private `languages` binding on "shared" only counts for bob
    let f_alice = s.facets(&alice, &everything).unwrap();
    assert_eq!(
        f_alice,
        vec![TagCount {
            tag: d.rust,
            count: 1
        }]
    );
    let f_bob = s.facets(&bob, &everything).unwrap();
    assert_eq!(
        f_bob,
        vec![
            TagCount {
                tag: d.rust,
                count: 2
            },
            TagCount {
                tag: d.languages,
                count: 1
            }
        ]
    );

    // tags_of
    assert_eq!(s.tags_of(&carol, &item("shared")).len(), 1);
    assert_eq!(s.tags_of(&bob, &item("shared")).len(), 2);
    assert!(s.tags_of(&carol, &item("secret")).is_empty());
}

#[test]
fn taggers_filter_narrows_before_evaluation() {
    let d = diamond();
    let s = tag(&d.s, "alice", "x", d.rust, Visibility::Public);
    let s = tag(&s, "bob", "y", d.rust, Visibility::Public);
    let sel = Selection::all_of(vec![TagRef::exact(d.rust)]).by_taggers(vec![actor("bob")]);
    assert_eq!(s.query(&actor("carol"), &sel).unwrap(), vec![item("y")]);
}

#[test]
fn a_view_is_not_a_state() {
    // Compile-time property: FolksonomyView has no `apply`. Documented here
    // so the intent survives refactors; the assertion is the type system.
    let d = diamond();
    let v = d.s.view_for(&actor("alice"));
    assert_eq!(v.tags.len(), 3);
    let _ = Action::RetireTag(d.rust); // exists on Folksonomy, not on the view
}
