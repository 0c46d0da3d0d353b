//! Contracts of the library checked on concrete values: the laws, the edge
//! cases, every builder and every read.

#![allow(dead_code)]

use folkengine::{
    normalize_label, Action, ActorId, Binding, Defect, Event, FolkError, Folksonomy, ItemId,
    Selection, Tag, TagCount, TagId, TagRef, Visibility,
};

fn actor(s: &str) -> ActorId {
    ActorId::new(s)
}

fn item(s: &str) -> ItemId {
    ItemId::new(s)
}

/// Apply and unwrap, returning the next state and events.
fn step(s: &Folksonomy, who: &str, a: Action) -> (Folksonomy, Vec<Event>) {
    let t = s.apply(&actor(who), a).expect("action should succeed");
    (t.state, t.events)
}

/// Apply and expect an error.
fn fails(s: &Folksonomy, who: &str, a: Action) -> FolkError {
    match s.apply(&actor(who), a) {
        Ok(_) => panic!("action should fail"),
        Err(e) => e,
    }
}

/// Define a tag and return the new state and its id.
fn define(s: &Folksonomy, who: &str, label: &str, parents: &[TagId]) -> (Folksonomy, TagId) {
    let (s, ev) = step(
        s,
        who,
        Action::DefineTag {
            label: label.to_owned(),
            parents: parents.to_vec(),
        },
    );
    match &ev[..] {
        [Event::TagDefined { tag, .. }] => (s, *tag),
        other => panic!("expected one TagDefined, got {other:?}"),
    }
}

fn tag(s: &Folksonomy, who: &str, it: &str, t: TagId, v: Visibility) -> Folksonomy {
    step(
        s,
        who,
        Action::Tag {
            item: item(it),
            tag: t,
            visibility: v,
        },
    )
    .0
}

fn open() -> Folksonomy {
    Folksonomy::empty(Vec::new())
}

fn curated(curators: &[&str]) -> Folksonomy {
    Folksonomy::empty(curators.iter().map(|c| ActorId::new(c)).collect())
}

/// The diamond: languages <- rust -> systems; rust has two parents.
struct Diamond {
    s: Folksonomy,
    languages: TagId,
    systems: TagId,
    rust: TagId,
}

fn diamond() -> Diamond {
    let s = open();
    let (s, languages) = define(&s, "alice", "Languages", &[]);
    let (s, systems) = define(&s, "alice", "Systems Programming", &[]);
    let (s, rust) = define(&s, "alice", "Rust", &[languages, systems]);
    Diamond {
        s,
        languages,
        systems,
        rust,
    }
}

fn raw_tag(id: u64, label: &str, aliases: &[&str], parents: &[u64]) -> Tag {
    Tag {
        id: TagId(id),
        label: label.to_owned(),
        aliases: aliases.iter().map(|a| a.to_string()).collect(),
        parents: parents.iter().map(|p| TagId(*p)).collect(),
    }
}

fn binding(it: &str, t: u64, who: &str, v: Visibility) -> Binding {
    Binding {
        item: item(it),
        tag: TagId(t),
        tagger: actor(who),
        visibility: v,
    }
}

#[test]
fn normalization_lowercases_and_collapses_every_kind_of_whitespace() {
    assert_eq!(normalize_label("ÉCOLE"), "école");
    assert_eq!(normalize_label("a\u{2003}\u{2003}B\u{3000}"), "a b");
    assert_eq!(normalize_label("\n\t"), "");
    assert_eq!(normalize_label("x"), "x");
}

#[test]
fn tag_refs_and_selection_builders_hold_what_they_are_given() {
    assert_eq!(
        TagRef::exact(TagId(4)),
        TagRef {
            tag: TagId(4),
            transitive: false
        }
    );
    assert_eq!(
        TagRef::under(TagId(4)),
        TagRef {
            tag: TagId(4),
            transitive: true
        }
    );
    let s = Selection::everything();
    assert!(s.any_of.is_empty() && s.none_of.is_empty() && s.taggers.is_none());
    let s = Selection::all_of(vec![TagRef::exact(TagId(1)), TagRef::under(TagId(2))])
        .but_not(TagRef::exact(TagId(3)))
        .by_taggers(vec![actor("ann")]);
    assert_eq!(
        s.any_of,
        vec![vec![TagRef::exact(TagId(1)), TagRef::under(TagId(2))]]
    );
    assert_eq!(s.none_of, vec![TagRef::exact(TagId(3))]);
    assert_eq!(s.taggers, Some(vec![actor("ann")]));
}

#[test]
fn structural_actions_are_exactly_the_vocabulary_edits() {
    let t = TagId(1);
    assert!(!Action::DefineTag { label: "x".into(), parents: vec![] }.is_structural());
    assert!(Action::RenameTag { tag: t, label: "x".into() }.is_structural());
    assert!(Action::AddAlias { tag: t, alias: "x".into() }.is_structural());
    assert!(Action::RemoveAlias { tag: t, alias: "x".into() }.is_structural());
    assert!(Action::AddParent { child: t, parent: t }.is_structural());
    assert!(Action::RemoveParent { child: t, parent: t }.is_structural());
    assert!(Action::MergeTags { source: t, into: t }.is_structural());
    assert!(Action::RetireTag(t).is_structural());
    assert!(!Action::Tag { item: item("i"), tag: t, visibility: Visibility::Public }.is_structural());
    assert!(!Action::Untag { item: item("i"), tag: t, tagger: None }.is_structural());
}

#[test]
fn reads_of_a_fresh_state() {
    let s = curated(&["zed", "amy", "zed"]);
    assert_eq!(s.next_tag_id(), TagId(1));
    assert!(s.tags().is_empty());
    assert!(s.bindings().is_empty());
    assert_eq!(s.curators(), &vec![actor("amy"), actor("zed")]);
    assert!(s.is_curator(&actor("amy")));
    assert!(!s.is_curator(&actor("bob")));
    assert!(s.may_edit_structure(&actor("zed")));
    assert!(!s.may_edit_structure(&actor("bob")));
    assert!(open().may_edit_structure(&actor("bob")));
    assert_eq!(s.resolve("anything"), None);
    assert_eq!(s.query(&actor("amy"), &Selection::everything()), Ok(vec![]));
    assert_eq!(s.facets(&actor("amy"), &Selection::everything()), Ok(vec![]));
    assert!(s.validate().is_empty());
}

#[test]
fn resolve_finds_labels_and_aliases_after_normalizing() {
    let s = open();
    let (s, rust) = define(&s, "a", "Rust", &[]);
    let (s, _) = step(&s, "a", Action::AddAlias { tag: rust, alias: "  RS ".into() });
    assert_eq!(s.resolve("rust"), Some(rust));
    assert_eq!(s.resolve("Rs"), Some(rust));
    assert_eq!(s.resolve("r s"), None);
    assert_eq!(s.tag(rust).unwrap().aliases, vec!["rs".to_string()]);
}

#[test]
fn define_allocates_ids_in_order_and_deduplicates_parents() {
    let s = open();
    let (s, a) = define(&s, "u", "a", &[]);
    let (s, b) = define(&s, "u", "b", &[]);
    assert_eq!((a, b), (TagId(1), TagId(2)));
    let (s, ev) = step(
        &s,
        "u",
        Action::DefineTag { label: "C".into(), parents: vec![b, a, b] },
    );
    assert_eq!(
        ev,
        vec![Event::TagDefined {
            tag: TagId(3),
            label: "c".into(),
            parents: vec![a, b],
            by: actor("u"),
        }]
    );
    assert_eq!(s.next_tag_id(), TagId(4));
    assert_eq!(s.tag(TagId(3)).unwrap().parents, vec![a, b]);
}

#[test]
fn unknown_parent_reported_is_the_smallest_missing_id() {
    let s = open();
    let (s, a) = define(&s, "u", "a", &[]);
    assert_eq!(
        fails(
            &s,
            "u",
            Action::DefineTag { label: "b".into(), parents: vec![TagId(70), a, TagId(50)] }
        ),
        FolkError::UnknownTag(TagId(50))
    );
}

#[test]
fn descendants_and_ancestors_are_converse() {
    let d = diamond();
    assert_eq!(d.s.descendants(d.languages), Ok(vec![d.rust]));
    assert_eq!(d.s.descendants(d.systems), Ok(vec![d.rust]));
    assert_eq!(d.s.ancestors(d.rust), Ok(vec![d.languages, d.systems]));
    assert_eq!(d.s.ancestors(d.languages), Ok(vec![]));
    assert_eq!(d.s.descendants(d.rust), Ok(vec![]));
    let (s, leaf) = define(&d.s, "a", "leaf", &[d.rust]);
    assert_eq!(s.ancestors(leaf), Ok(vec![d.languages, d.systems, d.rust]));
    assert_eq!(s.descendants(d.languages), Ok(vec![d.rust, leaf]));
    assert_eq!(s.descendants(TagId(99)), Err(FolkError::UnknownTag(TagId(99))));
}

#[test]
fn view_and_tags_of_keep_order_and_hide_private_bindings() {
    let d = diamond();
    let s = tag(&d.s, "bob", "x", d.rust, Visibility::Private);
    let s = tag(&s, "amy", "x", d.languages, Visibility::Public);
    let s = tag(&s, "amy", "w", d.rust, Visibility::Public);
    let v = s.view_for(&actor("amy"));
    assert_eq!(v.tags.iter().map(|t| t.id).collect::<Vec<_>>(), vec![d.languages, d.systems, d.rust]);
    assert_eq!(
        v.bindings,
        vec![
            binding("w", d.rust.0, "amy", Visibility::Public),
            binding("x", d.languages.0, "amy", Visibility::Public),
        ]
    );
    assert_eq!(
        s.tags_of(&actor("bob"), &item("x")),
        vec![
            binding("x", d.languages.0, "amy", Visibility::Public),
            binding("x", d.rust.0, "bob", Visibility::Private),
        ]
    );
    assert_eq!(s.tags_of(&actor("amy"), &item("nothing")), vec![]);
}

#[test]
fn hidden_bindings_change_no_read() {
    // What carol sees is what she would see if bob's private binding did
    // not exist at all.
    let d = diamond();
    let with = tag(&d.s, "amy", "x", d.rust, Visibility::Public);
    let with = tag(&with, "bob", "y", d.languages, Visibility::Private);
    let with = tag(&with, "bob", "x", d.systems, Visibility::Private);
    let without = tag(&d.s, "amy", "x", d.rust, Visibility::Public);
    let carol = actor("carol");
    for sel in [
        Selection::everything(),
        Selection::all_of(vec![TagRef::under(d.languages)]),
        Selection::everything().but_not(TagRef::exact(d.systems)),
    ] {
        assert_eq!(with.query(&carol, &sel), without.query(&carol, &sel));
        assert_eq!(with.facets(&carol, &sel), without.facets(&carol, &sel));
    }
    assert_eq!(with.tags_of(&carol, &item("x")), without.tags_of(&carol, &item("x")));
    assert_eq!(with.view_for(&carol), without.view_for(&carol));
}

#[test]
fn selection_edge_cases() {
    let d = diamond();
    let s = tag(&d.s, "a", "x", d.rust, Visibility::Public);
    let s = tag(&s, "b", "y", d.languages, Visibility::Public);
    let a = actor("a");
    // An empty clause holds of every item.
    let sel = Selection { any_of: vec![vec![]], none_of: vec![], taggers: None };
    assert_eq!(s.query(&a, &sel), Ok(vec![item("x"), item("y")]));
    // An empty tagger list leaves nothing to evaluate.
    let sel = Selection::everything().by_taggers(vec![]);
    assert_eq!(s.query(&a, &sel), Ok(vec![]));
    // Clauses are alternatives; refs within one clause all must hold.
    let sel = Selection {
        any_of: vec![vec![TagRef::exact(d.rust)], vec![TagRef::exact(d.languages)]],
        none_of: vec![],
        taggers: None,
    };
    assert_eq!(s.query(&a, &sel), Ok(vec![item("x"), item("y")]));
    let sel = Selection::all_of(vec![TagRef::exact(d.rust), TagRef::exact(d.languages)]);
    assert_eq!(s.query(&a, &sel), Ok(vec![]));
    let sel = Selection::all_of(vec![TagRef::under(d.languages)]).but_not(TagRef::exact(d.rust));
    assert_eq!(s.query(&a, &sel), Ok(vec![item("y")]));
}

#[test]
fn the_first_unknown_ref_is_reported_clauses_before_exclusions() {
    let d = diamond();
    let sel = Selection {
        any_of: vec![
            vec![TagRef::exact(d.rust)],
            vec![TagRef::exact(d.rust), TagRef::under(TagId(77))],
        ],
        none_of: vec![TagRef::exact(TagId(55))],
        taggers: None,
    };
    assert_eq!(d.s.query(&actor("a"), &sel), Err(FolkError::UnknownTag(TagId(77))));
    assert_eq!(d.s.facets(&actor("a"), &sel), Err(FolkError::UnknownTag(TagId(77))));
    let sel = Selection::everything().but_not(TagRef::exact(TagId(55)));
    assert_eq!(d.s.query(&actor("a"), &sel), Err(FolkError::UnknownTag(TagId(55))));
}

#[test]
fn facets_count_distinct_items_once_per_tag() {
    let d = diamond();
    // Two taggers on the same item and tag count once.
    let s = tag(&d.s, "a", "x", d.rust, Visibility::Public);
    let s = tag(&s, "b", "x", d.rust, Visibility::Public);
    let s = tag(&s, "a", "y", d.systems, Visibility::Public);
    let s = tag(&s, "a", "z", d.systems, Visibility::Public);
    let f = s.facets(&actor("a"), &Selection::everything()).unwrap();
    assert_eq!(
        f,
        vec![
            TagCount { tag: d.systems, count: 2 },
            TagCount { tag: d.rust, count: 1 },
        ]
    );
}

#[test]
fn from_parts_keys_everything_and_lets_the_later_part_win() {
    let s = Folksonomy::from_parts(
        9,
        vec![
            raw_tag(5, "old", &[], &[]),
            raw_tag(2, "two", &["zz", "aa", "zz"], &[5, 5]),
            raw_tag(5, "five", &[], &[2]),
        ],
        vec![
            binding("i", 2, "x", Visibility::Public),
            binding("h", 5, "x", Visibility::Public),
            binding("i", 2, "x", Visibility::Private),
        ],
        vec![actor("m"), actor("c"), actor("m")],
    );
    assert_eq!(
        s.tags().to_vec().iter().map(|t| (t.id, t.label.clone())).collect::<Vec<_>>(),
        vec![(TagId(2), "two".to_string()), (TagId(5), "five".to_string())]
    );
    assert_eq!(s.tag(TagId(2)).unwrap().aliases, vec!["aa".to_string(), "zz".to_string()]);
    assert_eq!(s.tag(TagId(2)).unwrap().parents, vec![TagId(5)]);
    assert_eq!(
        s.bindings(),
        vec![
            binding("h", 5, "x", Visibility::Public),
            binding("i", 2, "x", Visibility::Private),
        ]
    );
    assert_eq!(s.curators(), &vec![actor("c"), actor("m")]);
    assert_eq!(s.next_tag_id(), TagId(9));
    // 2 -> 5 -> 2 is a cycle.
    assert_eq!(s.validate(), vec![Defect::Cycle(vec![TagId(2), TagId(5)])]);
}

#[test]
fn validate_reports_defects_in_order() {
    let s = Folksonomy::from_parts(
        3,
        vec![
            raw_tag(1, "a", &["b"], &[8, 9]),
            raw_tag(2, "b", &["a"], &[]),
            raw_tag(3, "c", &["c"], &[]),
        ],
        vec![
            binding("z", 4, "x", Visibility::Public),
            binding("y", 6, "x", Visibility::Private),
        ],
        vec![],
    );
    assert_eq!(
        s.validate(),
        vec![
            Defect::DanglingParent { child: TagId(1), parent: TagId(8) },
            Defect::DanglingParent { child: TagId(1), parent: TagId(9) },
            Defect::DuplicateLabel("a".into()),
            Defect::DuplicateLabel("b".into()),
            Defect::DuplicateLabel("c".into()),
            Defect::DanglingBinding(binding("y", 6, "x", Visibility::Private)),
            Defect::DanglingBinding(binding("z", 4, "x", Visibility::Public)),
            Defect::IdCounterBehind,
        ]
    );
}

#[test]
fn folding_in_two_parts_is_folding_once_and_keeps_curators() {
    let s = curated(&["c"]);
    let (s1, a) = define(&s, "c", "a", &[]);
    let t1 = s.apply(&actor("c"), Action::DefineTag { label: "a".into(), parents: vec![] }).unwrap();
    let t2 = s1
        .apply(&actor("c"), Action::Tag { item: item("i"), tag: a, visibility: Visibility::Public })
        .unwrap();
    let mut all = t1.events.clone();
    all.extend(t2.events.iter().cloned());
    assert_eq!(s.fold(&all), s.fold(&t1.events).fold(&t2.events));
    assert_eq!(s.fold(&all), t2.state);
    let other = open();
    assert_eq!(other.fold(&all).curators(), &Vec::<ActorId>::new());
}

#[test]
fn retiring_never_winds_the_counter_back() {
    let s = open();
    let (s, a) = define(&s, "u", "a", &[]);
    let (s, b) = define(&s, "u", "b", &[]);
    let (s, _) = step(&s, "u", Action::RetireTag(b));
    let (s, _) = step(&s, "u", Action::RetireTag(a));
    assert!(s.tags().is_empty());
    assert_eq!(s.next_tag_id(), TagId(3));
    let (_, c) = define(&s, "u", "c", &[]);
    assert_eq!(c, TagId(3));
}

#[test]
fn a_valid_state_stays_valid_through_a_merge_with_shared_labels_and_bindings() {
    let s = open();
    let (s, top) = define(&s, "u", "top", &[]);
    let (s, src) = define(&s, "u", "src", &[top]);
    let (s, into) = define(&s, "u", "into", &[]);
    let (s, kid) = define(&s, "u", "kid", &[src, into]);
    let (s, _) = step(&s, "u", Action::AddAlias { tag: src, alias: "s2".into() });
    let s = tag(&s, "u", "i", src, Visibility::Public);
    let s = tag(&s, "u", "i", into, Visibility::Private);
    assert!(s.validate().is_empty());
    let (s, ev) = step(&s, "u", Action::MergeTags { source: src, into });
    assert!(s.validate().is_empty());
    assert!(s.tag(src).is_none());
    assert_eq!(s.tag(kid).unwrap().parents, vec![into]);
    assert_eq!(s.tag(into).unwrap().parents, vec![top]);
    assert_eq!(s.tag(into).unwrap().aliases, vec!["s2".to_string(), "src".to_string()]);
    assert_eq!(s.bindings(), vec![binding("i", into.0, "u", Visibility::Private)]);
    assert!(matches!(ev.last(), Some(Event::TagsMerged { moved_bindings: 0, .. })));
}

#[test]
fn rename_to_the_current_label_and_re_alias_are_silent() {
    let s = open();
    let (s, t) = define(&s, "u", "t", &[]);
    let (s2, ev) = step(&s, "u", Action::RenameTag { tag: t, label: " T ".into() });
    assert!(ev.is_empty());
    assert_eq!(s2, s);
    let (s3, ev) = step(&s, "u", Action::AddAlias { tag: t, alias: "t".into() });
    assert!(ev.is_empty());
    assert_eq!(s3, s);
    assert_eq!(
        fails(&s, "u", Action::AddParent { child: t, parent: t }),
        FolkError::WouldCycle
    );
}

#[test]
fn defaults_and_copies() {
    let s = Folksonomy::default();
    assert_eq!(s.next_tag_id(), TagId(0));
    assert!(s.tags().is_empty() && s.bindings().is_empty() && s.curators().is_empty());
    assert!(s.validate().is_empty());
    let d = diamond();
    let t = d.s.apply(&actor("a"), Action::RetireTag(d.rust)).unwrap();
    let u = t.clone();
    assert_eq!(u, t);
    let sel = Selection::all_of(vec![TagRef::under(d.languages)])
        .but_not(TagRef::exact(d.systems))
        .by_taggers(vec![actor("a")]);
    assert_eq!(sel.clone(), sel);
    let v = d.s.view_for(&actor("a"));
    assert_eq!(v.clone(), v);
    let k = Binding {
        item: item("i"),
        tag: d.rust,
        tagger: actor("a"),
        visibility: Visibility::Public,
    }
    .key();
    assert_eq!(k.clone(), k);
    let e = Defect::Cycle(vec![d.rust]);
    assert_eq!(e.clone(), e);
}
