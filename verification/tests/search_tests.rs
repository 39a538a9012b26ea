use docdelve::content::{
    ChestContents, ChestItem, ChestPath, ChestPathElement, ChestPathElementType, Module,
    ModuleInfo, Object, ObjectInfo, ObjectType, ThemeAdjustment, FileReplacementRule,
};
use docdelve::db::{SearchParameters, Theme};

fn object(name: &str, object_type: ObjectType, contents: Vec<ChestItem>) -> ChestItem {
    ChestItem::Object(Box::new(Object {
        info: ObjectInfo {
            name: name.to_string(),
            full_name: name.to_string(),
            declaration: None,
            url: None,
            object_type,
            bases: Vec::new(),
        },
        contents,
    }))
}

fn module(name: &str, contents: Vec<ChestItem>) -> ChestItem {
    ChestItem::Module(Box::new(Module {
        info: ModuleInfo {
            name: name.to_string(),
            full_name: name.to_string(),
            url: None,
        },
        contents,
    }))
}

fn contents_with(items: Vec<ChestItem>) -> ChestContents {
    let mut contents = ChestContents::new(
        "Test",
        "test",
        None,
        "1.0.0",
        "index.html",
        None,
        None,
    );
    contents.items = items;
    contents
}

fn names_of(path: &ChestPath) -> Vec<String> {
    path.elements.iter().map(|e| e.name.clone()).collect()
}

#[test]
fn search_finds_object_in_both_modules() {
    let contents = contents_with(vec![
        module("A", vec![object("Foo", ObjectType::Class, Vec::new())]),
        module("B", vec![object("Foo", ObjectType::Class, Vec::new())]),
    ]);
    let indexed = contents.to_indexed();
    let results = indexed.search(
        &ChestPath::root(),
        "Foo",
        &SearchParameters { result_count: 10 },
    );
    assert_eq!(results.len(), 2);
    assert_eq!(results[0].score, results[1].score);
    assert_eq!(names_of(&results[0].path), vec!["A", "Foo"]);
    assert_eq!(names_of(&results[1].path), vec!["B", "Foo"]);
}

#[test]
fn segmented_search_narrows_to_subtree() {
    let contents = contents_with(vec![module(
        "Std",
        vec![object(
            "Vec",
            ObjectType::Class,
            vec![object("push", ObjectType::Method, Vec::new())],
        )],
    )]);
    let indexed = contents.to_indexed();
    let params = SearchParameters { result_count: 10 };
    let results = indexed.search(&ChestPath::root(), "Vec.push", &params);
    assert_eq!(results.len(), 1);
    assert_eq!(names_of(&results[0].path), vec!["Std", "Vec", "push"]);
    assert_eq!(
        results[0].path.elements[0].element_type,
        ChestPathElementType::Module
    );
    assert_eq!(
        results[0].path.elements[1].element_type,
        ChestPathElementType::Object
    );

    let none = indexed.search(&ChestPath::root(), "Vec.nope", &params);
    assert!(none.is_empty());
}

#[test]
fn search_scores_meet_the_floor() {
    let contents = contents_with(vec![module(
        "M",
        vec![object("abc", ObjectType::Class, Vec::new())],
    )]);
    let indexed = contents.to_indexed();
    let params = SearchParameters { result_count: 10 };
    // a single character query matched mid-identifier scores below the
    // floor and is dropped
    let weak = indexed.search(&ChestPath::root(), "b", &params);
    assert!(weak.is_empty());
    // every returned result scores at least the floor
    let strong = indexed.search(&ChestPath::root(), "abc", &params);
    assert!(!strong.is_empty());
    for r in &strong {
        assert!(r.score >= docdelve::search::MIN_SEARCH_SCORE);
    }
}

#[test]
fn empty_query_yields_nothing() {
    let contents = contents_with(vec![module("M", Vec::new())]);
    let indexed = contents.to_indexed();
    let params = SearchParameters { result_count: 10 };
    assert!(indexed.search(&ChestPath::root(), "", &params).is_empty());
    assert!(indexed.search(&ChestPath::root(), "::", &params).is_empty());
    assert!(indexed.search(&ChestPath::root(), "...", &params).is_empty());
}

#[test]
fn search_respects_result_count() {
    let items: Vec<ChestItem> = (0..30)
        .map(|i| object(&format!("item{:02}", i), ObjectType::Class, Vec::new()))
        .collect();
    let contents = contents_with(items);
    let indexed = contents.to_indexed();
    let results = indexed.search(
        &ChestPath::root(),
        "item",
        &SearchParameters { result_count: 5 },
    );
    assert_eq!(results.len(), 5);
    // sorted by score descending
    for w in results.windows(2) {
        assert!(w[0].score >= w[1].score);
    }
}

#[test]
fn search_from_start_path_only_sees_that_subtree() {
    let contents = contents_with(vec![
        module("A", vec![object("Foo", ObjectType::Class, Vec::new())]),
        module("B", vec![object("Foo", ObjectType::Class, Vec::new())]),
    ]);
    let indexed = contents.to_indexed();
    let start = ChestPath {
        elements: vec![ChestPathElement {
            element_type: ChestPathElementType::Module,
            name: "A".to_string(),
        }],
    };
    let results = indexed.search(&start, "Foo", &SearchParameters { result_count: 10 });
    assert_eq!(results.len(), 1);
    assert_eq!(names_of(&results[0].path), vec!["A", "Foo"]);
}

#[test]
fn theme_transform_applies_first_matching_rule() {
    let mut contents = contents_with(Vec::new());
    contents.info.dark_mode = Some(ThemeAdjustment {
        file_replacements: vec![
            FileReplacementRule {
                pattern: "light.css".to_string(),
                replacement: "dark.css".to_string(),
            },
            FileReplacementRule {
                pattern: "x/light.css".to_string(),
                replacement: "never.css".to_string(),
            },
        ],
    });
    let indexed = contents.to_indexed();
    assert_eq!(
        indexed.transform_path_for_theme("x/light.css", Theme::Dark),
        "x/dark.css"
    );
    // no rule matches: the path is returned unchanged
    assert_eq!(
        indexed.transform_path_for_theme("x/other.css", Theme::Dark),
        "x/other.css"
    );
    // the light theme has no adjustments at all
    assert_eq!(
        indexed.transform_path_for_theme("x/light.css", Theme::Light),
        "x/light.css"
    );
}

#[test]
fn page_for_path_resolves_urls() {
    let mut inner = object("Thing", ObjectType::Class, Vec::new());
    if let ChestItem::Object(o) = &mut inner {
        o.info.url = Some("docs/page.html".to_string());
    }
    let contents = contents_with(vec![module("M", vec![inner])]);
    let indexed = contents.to_indexed();
    let found = indexed
        .page_for_path("/docs/page.html#anchor", None)
        .expect("url should resolve");
    assert_eq!(names_of(&found), vec!["M", "Thing"]);
    assert!(indexed.page_for_path("docs/absent.html", None).is_none());
}

#[test]
fn indexed_items_report_names_and_ranges() {
    let contents = contents_with(vec![module(
        "Std",
        vec![object(
            "Vec",
            ObjectType::Class,
            vec![object("push", ObjectType::Method, Vec::new())],
        )],
    )]);
    let indexed = contents.to_indexed();
    let roots = indexed.items();
    assert_eq!(roots.len(), 1);
    assert_eq!(roots[0].name(), "Std");
    // subtree contiguity: the module's range covers both descendants
    let range = roots[0].children_range();
    assert_eq!(range, (1, 3));
    let vec_item = indexed.get_by_id(1).unwrap();
    assert_eq!(vec_item.name(), "Vec");
    assert_eq!(vec_item.children_range(), (2, 3));
    let push_item = indexed.get_by_id(2).unwrap();
    assert_eq!(push_item.name(), "push");
    assert_eq!(push_item.children_range(), (3, 3));
}

#[test]
fn get_returns_items_at_path() {
    let contents = contents_with(vec![module(
        "Std",
        vec![object("Vec", ObjectType::Class, Vec::new())],
    )]);
    let indexed = contents.to_indexed();
    let path = ChestPath {
        elements: vec![
            ChestPathElement {
                element_type: ChestPathElementType::Module,
                name: "Std".to_string(),
            },
            ChestPathElement {
                element_type: ChestPathElementType::Object,
                name: "Vec".to_string(),
            },
        ],
    };
    let found = indexed.get(&path);
    assert_eq!(found.len(), 1);
    assert_eq!(found[0].name(), "Vec");
}

#[test]
fn page_for_path_prefers_hinted_parent() {
    let mut outer = object("Outer", ObjectType::Class, vec![object(
        "Inner",
        ObjectType::Method,
        Vec::new(),
    )]);
    if let ChestItem::Object(o) = &mut outer {
        o.info.url = Some("page.html".to_string());
    }
    let contents = contents_with(vec![module("M", vec![outer])]);
    let indexed = contents.to_indexed();
    let hint = ChestPath {
        elements: vec![
            ChestPathElement {
                element_type: ChestPathElementType::Module,
                name: "M".to_string(),
            },
            ChestPathElement {
                element_type: ChestPathElementType::Object,
                name: "Outer".to_string(),
            },
            ChestPathElement {
                element_type: ChestPathElementType::Object,
                name: "Inner".to_string(),
            },
        ],
    };
    let found = indexed
        .page_for_path("page.html", Some(&hint))
        .expect("url should resolve");
    assert_eq!(names_of(&found), vec!["M", "Outer"]);

    // a hint that no match is a parent of falls back to the deepest
    // match overall
    let unrelated = ChestPath {
        elements: vec![ChestPathElement {
            element_type: ChestPathElementType::Module,
            name: "Elsewhere".to_string(),
        }],
    };
    let fallback = indexed
        .page_for_path("page.html", Some(&unrelated))
        .expect("url should still resolve");
    assert_eq!(names_of(&fallback), vec!["M", "Outer"]);
}

#[test]
fn path_elements_collapse_duplicates() {
    let contents = contents_with(vec![
        module("A", Vec::new()),
        module("A", Vec::new()),
        module("B", Vec::new()),
        object("A", ObjectType::Class, Vec::new()),
    ]);
    let indexed = contents.to_indexed();
    let roots = indexed.items();
    let elements = ChestPathElement::path_elements_for_items(roots.as_slice());
    // the duplicate module "A" collapses; the object "A" differs in type
    assert_eq!(elements.len(), 3);
    assert_eq!(elements[0].name, "A");
    assert_eq!(elements[0].element_type, ChestPathElementType::Module);
    assert_eq!(elements[1].name, "B");
    assert_eq!(elements[2].name, "A");
    assert_eq!(elements[2].element_type, ChestPathElementType::Object);
}

#[test]
fn get_collects_every_match_per_level() {
    let contents = contents_with(vec![
        module("A", vec![object("X", ObjectType::Class, Vec::new())]),
        module("A", vec![object("Y", ObjectType::Class, Vec::new())]),
        module("B", vec![object("X", ObjectType::Class, Vec::new())]),
    ]);
    let indexed = contents.to_indexed();
    let at_a = indexed.get(&ChestPath {
        elements: vec![ChestPathElement {
            element_type: ChestPathElementType::Module,
            name: "A".to_string(),
        }],
    });
    // both modules named A match, in index order
    assert_eq!(at_a.len(), 2);
    let at_ax = indexed.get(&ChestPath {
        elements: vec![
            ChestPathElement {
                element_type: ChestPathElementType::Module,
                name: "A".to_string(),
            },
            ChestPathElement {
                element_type: ChestPathElementType::Object,
                name: "X".to_string(),
            },
        ],
    });
    // only the first A holds an X; the Y under the second A is not taken
    assert_eq!(at_ax.len(), 1);
    assert_eq!(at_ax[0].name(), "X");
    assert!(indexed.get(&ChestPath { elements: Vec::new() }).is_empty());
}

#[test]
fn search_truncation_keeps_best_ranked() {
    let contents = contents_with(vec![
        module("alphabet", Vec::new()),
        module("alpha", Vec::new()),
    ]);
    let indexed = contents.to_indexed();
    let root = ChestPath { elements: Vec::new() };
    let all = indexed.search(&root, "alpha", &SearchParameters { result_count: 10 });
    assert_eq!(all.len(), 2);
    // the exact match scores highest and survives the cut
    let cut = indexed.search(&root, "alpha", &SearchParameters { result_count: 1 });
    assert_eq!(cut.len(), 1);
    assert_eq!(cut[0].score, all[0].score);
    let names: Vec<String> = cut[0].path.elements.iter().map(|e| e.name.clone()).collect();
    assert_eq!(names, vec!["alpha"]);

    // a start path that names nothing yields no results
    let missing = ChestPath {
        elements: vec![ChestPathElement {
            element_type: ChestPathElementType::Module,
            name: "nowhere".to_string(),
        }],
    };
    assert!(indexed.search(&missing, "alpha", &SearchParameters { result_count: 10 }).is_empty());
}
