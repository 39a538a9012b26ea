use docdelve::chest::Chest;
use docdelve::container::{Container, ContainerBuildStep, ContainerEngine};
use docdelve::content::{ChestContents, ChestItem, ChestPath, ChestPathElement,
    ChestPathElementType, FileReplacementRule, Module, ModuleInfo, Object, ObjectInfo,
    ObjectType, Page, PageItem, PageLink, ThemeAdjustment};
use docdelve::db::{Database, ItemPath, SearchParameters};

fn chest_with_manifest() -> Chest {
    let mut chest = Chest::new();
    chest.write("index.html", b"<html></html>").unwrap();
    chest
}

fn contents_for(tag: &str, version: &str) -> ChestContents {
    ChestContents::new("Rust", tag, None, version, "index.html", None, None)
}

fn install_version(db: &mut Database, tag: &str, version: &str) -> String {
    let chest = chest_with_manifest();
    let contents = contents_for(tag, version);
    let identifier = contents.info.identifier.clone();
    db.install(chest, contents);
    identifier
}

#[test]
fn identifier_for_tag_picks_numerically_latest() {
    let mut db = Database::new("data".to_string());
    let _v1700 = install_version(&mut db, "rust", "1.70.0");
    let v17110 = install_version(&mut db, "rust", "1.71.10");
    let _v1710 = install_version(&mut db, "rust", "1.71.0");
    // 1.71.10 orders above 1.71.0 and 1.70.0 by numeric components
    assert_eq!(db.identifier_for_tag("rust"), Some(v17110.clone()));
    assert_eq!(db.identifier_for_tag("other"), None);
}

#[test]
fn identifier_for_tag_exact_version() {
    let mut db = Database::new("data".to_string());
    let v1700 = install_version(&mut db, "rust", "1.70.0");
    let _v1710 = install_version(&mut db, "rust", "1.71.0");
    assert_eq!(db.identifier_for_tag("rust@1.70.0"), Some(v1700));
    assert_eq!(db.identifier_for_tag("rust@9.9.9"), None);
    assert_eq!(db.identifier_for_tag("rust@1.70.0@x"), None);
}

#[test]
fn tag_for_identifier_marks_old_versions() {
    let mut db = Database::new("data".to_string());
    let v1700 = install_version(&mut db, "rust", "1.70.0");
    let v1710 = install_version(&mut db, "rust", "1.71.0");
    assert_eq!(db.tag_for_identifier(&v1710), Some("rust".to_string()));
    assert_eq!(
        db.tag_for_identifier(&v1700),
        Some("rust@1.70.0".to_string())
    );
    assert_eq!(db.tag_for_identifier("unknown"), None);
}

#[test]
fn database_search_spans_latest_versions() {
    let mut db = Database::new("data".to_string());
    let chest = chest_with_manifest();
    let mut contents = contents_for("rust", "1.0.0");
    contents.items = vec![ChestItem::Module(Box::new(Module {
        info: ModuleInfo {
            name: "Std".to_string(),
            full_name: "Std".to_string(),
            url: None,
        },
        contents: vec![ChestItem::Object(Box::new(Object {
            info: ObjectInfo {
                name: "Vector".to_string(),
                full_name: "Std::Vector".to_string(),
                declaration: None,
                url: None,
                object_type: ObjectType::Class,
                bases: Vec::new(),
            },
            contents: Vec::new(),
        }))],
    }))];
    let identifier = contents.info.identifier.clone();
    db.install(chest, contents);

    let results = db.search(None, "Vector", SearchParameters { result_count: 10 });
    assert_eq!(results.len(), 1);
    assert_eq!(results[0].path.identifier, identifier);
    let names: Vec<String> = results[0]
        .path
        .chest_path
        .elements
        .iter()
        .map(|e| e.name.clone())
        .collect();
    assert_eq!(names, vec!["Std", "Vector"]);

    assert!(db
        .search(None, "", SearchParameters { result_count: 10 })
        .is_empty());
}

#[test]
fn database_read_applies_theme_rules() {
    let mut db = Database::new("data".to_string());
    let mut chest = chest_with_manifest();
    chest.write("light.css", b"light").unwrap();
    chest.write("dark.css", b"dark").unwrap();
    let mut contents = contents_for("rust", "1.0.0");
    contents.info.dark_mode = Some(ThemeAdjustment {
        file_replacements: vec![FileReplacementRule {
            pattern: "light.css".to_string(),
            replacement: "dark.css".to_string(),
        }],
    });
    let identifier = contents.info.identifier.clone();
    db.install(chest, contents);

    let light = db
        .read(&identifier, "light.css", docdelve::db::Theme::Light)
        .unwrap();
    assert_eq!(light, b"light");
    let dark = db
        .read(&identifier, "light.css", docdelve::db::Theme::Dark)
        .unwrap();
    assert_eq!(dark, b"dark");
    assert!(db
        .read("missing", "light.css", docdelve::db::Theme::Light)
        .is_err());
}

#[test]
fn database_list_dir_delegates() {
    let mut db = Database::new("data".to_string());
    let chest = chest_with_manifest();
    let contents = contents_for("rust", "1.0.0");
    let identifier = contents.info.identifier.clone();
    db.install(chest, contents);
    let listing = db.list_dir(&identifier, "").unwrap();
    assert_eq!(listing.len(), 1);
    assert!(db.list_dir("missing", "").is_err());
}

#[test]
fn new_chest_contents_mints_identifiers() {
    let a = contents_for("rust", "1.0.0");
    let b = contents_for("rust", "1.0.0");
    assert_eq!(a.info.identifier.len(), 32);
    assert_eq!(b.info.identifier.len(), 32);
    assert_ne!(a.info.identifier, b.info.identifier);
    assert_eq!(a.info.category_tag, "rust");
    assert_eq!(a.info.version, "1.0.0");
    assert_eq!(a.info.start_url, "index.html");
    assert!(a.items.is_empty());
}

#[test]
fn semantic_version_parses_numeric_components() {
    assert_eq!(docdelve::db::semantic_version("1.71.10"), vec![1, 71, 10]);
    assert_eq!(docdelve::db::semantic_version("1.0-beta_2"), vec![1, 0, 2]);
    assert_eq!(docdelve::db::semantic_version("abc"), Vec::<u32>::new());
    assert_eq!(docdelve::db::parse_u32("0042"), Some(42));
    assert_eq!(docdelve::db::parse_u32("4294967295"), Some(u32::MAX));
    assert_eq!(docdelve::db::parse_u32("4294967296"), None);
    assert_eq!(docdelve::db::parse_u32("12a"), None);
    assert_eq!(docdelve::db::parse_u32(""), None);
}

#[test]
fn container_builder_records_steps() {
    let mut container = Container::new(ContainerEngine::Podman);
    assert_eq!(container.engine(), ContainerEngine::Podman);
    assert_eq!(container.base_image(), "ubuntu:22.04");

    container.apt_install(&["curl", "ca-certificates"]);
    // the first installation adds the package list update first
    assert_eq!(container.steps().len(), 2);
    match &container.steps()[0] {
        ContainerBuildStep::Command(parts) => {
            assert_eq!(parts, &vec!["apt-get", "update", "-y"]);
        }
        _ => panic!("expected a command step"),
    }
    match &container.steps()[1] {
        ContainerBuildStep::Command(parts) => {
            assert_eq!(
                parts,
                &vec!["apt-get", "install", "--no-install-recommends", "-y", "curl",
                    "ca-certificates"]
            );
        }
        _ => panic!("expected a command step"),
    }
    container.apt_install(&["git"]);
    assert_eq!(container.steps().len(), 3);

    container.command(&["sh", "-c", "echo hi"]);
    container.work_dir("/src");
    container.env("PATH", "$PATH:/root/.cargo/bin");
    assert_eq!(container.steps().len(), 6);
    match &container.steps()[4] {
        ContainerBuildStep::WorkingDirectory(p) => assert_eq!(p, "/src"),
        _ => panic!("expected a working directory step"),
    }
    container.generic_progress("Doing things");
    assert!(container.progress_for_step(7).is_some());
    assert!(container.image().is_none());
    container.set_image("abc123".to_string());
    assert_eq!(container.image().map(|s| s.as_str()), Some("abc123"));
}

#[test]
fn database_search_within_one_chest() {
    let mut db = Database::new("data".to_string());
    let chest = chest_with_manifest();
    let mut contents = contents_for("rust", "1.0.0");
    contents.items = vec![ChestItem::Module(Box::new(Module {
        info: ModuleInfo {
            name: "Std".to_string(),
            full_name: "Std".to_string(),
            url: None,
        },
        contents: vec![ChestItem::Object(Box::new(Object {
            info: ObjectInfo {
                name: "Vector".to_string(),
                full_name: "Std::Vector".to_string(),
                declaration: None,
                url: None,
                object_type: ObjectType::Class,
                bases: Vec::new(),
            },
            contents: Vec::new(),
        }))],
    }))];
    let identifier = contents.info.identifier.clone();
    db.install(chest, contents);

    let start = ItemPath {
        identifier: identifier.clone(),
        chest_path: docdelve::content::ChestPath {
            elements: vec![docdelve::content::ChestPathElement {
                element_type: docdelve::content::ChestPathElementType::Module,
                name: "Std".to_string(),
            }],
        },
    };
    let results = db.search(
        Some(&start),
        "Vector",
        SearchParameters { result_count: 10 },
    );
    assert_eq!(results.len(), 1);
    assert_eq!(results[0].path.identifier, identifier);

    let absent = ItemPath {
        identifier: "unknown".to_string(),
        chest_path: docdelve::content::ChestPath { elements: Vec::new() },
    };
    assert!(db
        .search(Some(&absent), "Vector", SearchParameters { result_count: 10 })
        .is_empty());
}

#[test]
fn item_contents_gathers_children_pages_and_bases() {
    let mut db = Database::new("data".to_string());
    let chest = chest_with_manifest();
    let mut contents = contents_for("rust", "1.0.0");
    let base_path = ChestPath {
        elements: vec![ChestPathElement {
            element_type: ChestPathElementType::Object,
            name: "Base".to_string(),
        }],
    };
    contents.items = vec![ChestItem::Module(Box::new(Module {
        info: ModuleInfo {
            name: "Std".to_string(),
            full_name: "Std".to_string(),
            url: None,
        },
        contents: vec![
            ChestItem::Object(Box::new(Object {
                info: ObjectInfo {
                    name: "Derived".to_string(),
                    full_name: "Std::Derived".to_string(),
                    declaration: None,
                    url: None,
                    object_type: ObjectType::Class,
                    bases: vec![base_path],
                },
                contents: Vec::new(),
            })),
            ChestItem::Page(Box::new(Page {
                title: "Guide".to_string(),
                url: "guide.html".to_string(),
                contents: vec![PageItem::Link(PageLink {
                    title: "Intro".to_string(),
                    url: "guide.html#intro".to_string(),
                })],
            })),
        ],
    }))];
    let identifier = contents.info.identifier.clone();
    db.install(chest, contents);

    let std_item_path = ItemPath {
        identifier: identifier.clone(),
        chest_path: ChestPath {
            elements: vec![ChestPathElement {
                element_type: ChestPathElementType::Module,
                name: "Std".to_string(),
            }],
        },
    };
    let at_module = db.item_contents_at_path(&std_item_path);
    // the module's two children, no page items, no bases
    assert_eq!(at_module.chest_items.len(), 2);
    assert!(at_module.page_items.is_empty());
    assert!(at_module.bases.is_empty());

    let mut object_path = std_item_path.clone();
    object_path.chest_path.elements.push(ChestPathElement {
        element_type: ChestPathElementType::Object,
        name: "Derived".to_string(),
    });
    let at_object = db.item_contents_at_path(&object_path);
    assert!(at_object.chest_items.is_empty());
    assert_eq!(at_object.bases.len(), 1);
    assert_eq!(at_object.bases[0].elements[0].name, "Base");

    let mut page_path = std_item_path.clone();
    page_path.chest_path.elements.push(ChestPathElement {
        element_type: ChestPathElementType::Page,
        name: "Guide".to_string(),
    });
    let at_page = db.item_contents_at_path(&page_path);
    assert!(at_page.chest_items.is_empty());
    assert_eq!(at_page.page_items.len(), 1);

    let direct = db.items_at_path(&std_item_path);
    assert_eq!(direct.len(), 1);
    let missing = ItemPath {
        identifier: "unknown".to_string(),
        chest_path: ChestPath { elements: Vec::new() },
    };
    assert!(db.items_at_path(&missing).is_empty());
}

#[test]
fn dockerfile_renders_steps() {
    let mut container = Container::new(ContainerEngine::Podman);
    container.command(&["echo", "a\"b"]);
    container.work_dir("/src");
    container.env("A", "B");
    let file = container.dockerfile();
    assert_eq!(
        file,
        "FROM ubuntu:22.04\nRUN [\"echo\", \"a\\\"b\"]\nWORKDIR /src\nENV A=B\n"
    );
}
